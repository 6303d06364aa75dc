//! Stable sorting of directory entries by the browser's sort modes.

use vstd::prelude::*;
use crate::natord::{natord, natord_compare, law_natord_antisymmetric};
use crate::paths::{extension_text, extension_of};
use crate::text::{lowercase_of, str_lowercase, chars_of};
use std::cmp::Ordering;

verus! {

/// How the browser orders the files of a directory.
#[derive(Clone, Copy, Debug, PartialEq, Eq, Structural)]
pub enum SortMode {
    Name,
    DateModified,
    Size,
    Extension,
}

/// One file of a directory listing, with what sorting reads of it.
#[derive(Debug)]
pub struct FileEntry {
    /// The full path of the file.
    pub path: String,
    /// The file name (last component of the path).
    pub name: String,
    /// Modification time in nanoseconds since the Unix epoch, where known.
    pub modified: Option<i128>,
    /// Size in bytes (0 where unknown).
    pub size: u64,
    /// The entry is a regular file.
    pub is_file: bool,
}

/// Outcome of comparing two entries.
#[derive(Clone, Copy, Debug, PartialEq, Eq, Structural)]
pub enum Rank {
    Before,
    Same,
    After,
}

/// The rank of an `Ordering`.
pub open spec fn rank_of(o: Ordering) -> Rank {
    match o {
        Ordering::Less => Rank::Before,
        Ordering::Equal => Rank::Same,
        Ordering::Greater => Rank::After,
    }
}

/// The opposite rank.
pub open spec fn flip(r: Rank) -> Rank {
    match r {
        Rank::Before => Rank::After,
        Rank::Same => Rank::Same,
        Rank::After => Rank::Before,
    }
}

/// Rank of two integers.
pub open spec fn int_rank(a: int, b: int) -> Rank {
    if a < b {
        Rank::Before
    } else if a > b {
        Rank::After
    } else {
        Rank::Same
    }
}

/// Rank of two sizes.
pub open spec fn size_rank(a: u64, b: u64) -> Rank {
    int_rank(a as int, b as int)
}

fn size_compare(a: u64, b: u64) -> (r: Rank)
    ensures
        r == size_rank(a, b),
{
    int_compare(a as i128, b as i128)
}

/// Rank of two optional times: an unknown time comes first.
pub open spec fn time_rank(a: Option<i128>, b: Option<i128>) -> Rank {
    match (a, b) {
        (None, None) => Rank::Same,
        (None, Some(_)) => Rank::Before,
        (Some(_), None) => Rank::After,
        (Some(x), Some(y)) => int_rank(x as int, y as int),
    }
}

/// Lexicographic rank of two texts by code point (that of `str::cmp`).
pub open spec fn text_rank(a: Seq<char>, b: Seq<char>) -> Rank
    decreases a.len(),
{
    if a.len() == 0 && b.len() == 0 {
        Rank::Same
    } else if a.len() == 0 {
        Rank::Before
    } else if b.len() == 0 {
        Rank::After
    } else if a[0] < b[0] {
        Rank::Before
    } else if a[0] > b[0] {
        Rank::After
    } else {
        text_rank(a.skip(1), b.skip(1))
    }
}

proof fn lemma_text_rank_flip(a: Seq<char>, b: Seq<char>)
    ensures
        text_rank(b, a) == flip(text_rank(a, b)),
    decreases a.len(),
{
    if a.len() > 0 && b.len() > 0 && a[0] == b[0] {
        lemma_text_rank_flip(a.skip(1), b.skip(1));
    }
}

/// How `mode` ranks entry `a` against entry `b`.
#[verifier::opaque]
pub open spec fn entry_rank(mode: SortMode, a: FileEntry, b: FileEntry) -> Rank {
    match mode {
        SortMode::Name => rank_of(natord(a.name@, b.name@)),
        SortMode::DateModified => time_rank(a.modified, b.modified),
        SortMode::Size => size_rank(a.size, b.size),
        SortMode::Extension => text_rank(
            lowercase_of(extension_text(a.name@)),
            lowercase_of(extension_text(b.name@)),
        ),
    }
}

/// Ranking `b` against `a` gives the opposite of ranking `a` against `b`.
pub proof fn lemma_entry_rank_flip(mode: SortMode, a: FileEntry, b: FileEntry)
    ensures
        entry_rank(mode, b, a) == flip(entry_rank(mode, a, b)),
{
    reveal(entry_rank);
    match mode {
        SortMode::Name => law_natord_antisymmetric(a.name@, b.name@),
        SortMode::Extension => lemma_text_rank_flip(
            lowercase_of(extension_text(a.name@)),
            lowercase_of(extension_text(b.name@)),
        ),
        _ => {},
    }
}

fn rank_from(o: Ordering) -> (r: Rank)
    ensures
        r == rank_of(o),
{
    match o {
        Ordering::Less => Rank::Before,
        Ordering::Equal => Rank::Same,
        Ordering::Greater => Rank::After,
    }
}

fn text_compare(a: &str, b: &str) -> (r: Rank)
    ensures
        r == text_rank(a@, b@),
{
    let av = chars_of(a);
    let bv = chars_of(b);
    let mut i: usize = 0;
    proof {
        assert(a@.skip(0) =~= a@);
        assert(b@.skip(0) =~= b@);
    }
    while i < av.len() && i < bv.len() && av[i] == bv[i]
        invariant
            av@ == a@,
            bv@ == b@,
            i <= av.len(),
            i <= bv.len(),
            text_rank(a@, b@) == text_rank(a@.skip(i as int), b@.skip(i as int)),
        decreases av.len() - i,
    {
        assert(a@.skip(i + 1) =~= a@.skip(i as int).skip(1));
        assert(b@.skip(i + 1) =~= b@.skip(i as int).skip(1));
        i = i + 1;
    }
    if i == av.len() && i == bv.len() {
        Rank::Same
    } else if i == av.len() {
        Rank::Before
    } else if i == bv.len() {
        Rank::After
    } else {
        assert(a@.skip(i as int)[0] == a@[i as int]);
        assert(b@.skip(i as int)[0] == b@[i as int]);
        if av[i] < bv[i] {
            Rank::Before
        } else {
            Rank::After
        }
    }
}

fn int_compare(a: i128, b: i128) -> (r: Rank)
    ensures
        r == int_rank(a as int, b as int),
{
    if a < b {
        Rank::Before
    } else if a > b {
        Rank::After
    } else {
        Rank::Same
    }
}

fn lowered_extension(name: &str) -> (r: String)
    ensures
        r@ == lowercase_of(extension_text(name@)),
{
    match extension_of(name) {
        Some(e) => str_lowercase(e.as_str()),
        None => {
            proof {
                reveal_strlit("");
                assert(""@ =~= Seq::<char>::empty());
            }
            str_lowercase("")
        },
    }
}

/// How `mode` ranks entry `a` against entry `b`.
pub fn entry_compare(mode: SortMode, a: &FileEntry, b: &FileEntry) -> (r: Rank)
    ensures
        r == entry_rank(mode, *a, *b),
{
    reveal(entry_rank);
    match mode {
        SortMode::Name => rank_from(natord_compare(a.name.as_str(), b.name.as_str())),
        SortMode::DateModified => match (a.modified, b.modified) {
            (None, None) => Rank::Same,
            (None, Some(_)) => Rank::Before,
            (Some(_), None) => Rank::After,
            (Some(x), Some(y)) => int_compare(x, y),
        },
        SortMode::Size => size_compare(a.size, b.size),
        SortMode::Extension => {
            let la = lowered_extension(a.name.as_str());
            let lb = lowered_extension(b.name.as_str());
            text_compare(la.as_str(), lb.as_str())
        },
    }
}

/// `output[k]` is `input[p[k]]`, with each `p[k]` below `bound`.
#[verifier::opaque]
pub open spec fn drawn_from(input: Seq<FileEntry>, output: Seq<FileEntry>, p: Seq<int>, bound: int) -> bool {
    &&& output.len() == p.len()
    &&& forall|k: int| 0 <= k < p.len() ==> 0 <= #[trigger] p[k] < bound
    &&& forall|k: int| 0 <= k < p.len() ==> output[k] == input[#[trigger] p[k]]
}

/// No index occurs twice in `p`.
#[verifier::opaque]
pub open spec fn injective(p: Seq<int>) -> bool {
    forall|k1: int, k2: int| 0 <= k1 < k2 < p.len() ==> #[trigger] p[k1] != #[trigger] p[k2]
}

/// Every index below `bound` occurs in `p`.
#[verifier::opaque]
pub open spec fn covers(p: Seq<int>, bound: int) -> bool {
    forall|t: int| 0 <= t < bound ==> #[trigger] p.contains(t)
}

/// Each entry ranks no later than the next one.
#[verifier::opaque]
pub open spec fn in_order(mode: SortMode, s: Seq<FileEntry>) -> bool {
    forall|k1: int, k2: int| 0 <= k1 && k2 == k1 + 1 && k2 < s.len()
        ==> #[trigger] entry_rank(mode, s[k1], s[k2]) != Rank::After
}

/// Entries that rank the same are in the order of their origin in `p`.
#[verifier::opaque]
pub open spec fn keeps_ties(mode: SortMode, s: Seq<FileEntry>, p: Seq<int>) -> bool {
    forall|k1: int, k2: int|
        0 <= k1 < k2 < s.len() && entry_rank(mode, #[trigger] s[k1], #[trigger] s[k2]) == Rank::Same
            ==> p[k1] < p[k2]
}

/// `p` shows that `output` is the stable sort of `input` by `mode`:
/// `output[k]` is `input[p[k]]`, `p` is a permutation, neighbours are in
/// order, and entries that rank the same keep their input order.
pub open spec fn sort_witness(
    mode: SortMode,
    input: Seq<FileEntry>,
    output: Seq<FileEntry>,
    p: Seq<int>,
) -> bool {
    &&& p.len() == input.len()
    &&& drawn_from(input, output, p, input.len() as int)
    &&& injective(p)
    &&& covers(p, input.len() as int)
    &&& in_order(mode, output)
    &&& keeps_ties(mode, output, p)
}

/// `output` is the stable sort of `input` by `mode`.
pub open spec fn is_stable_sort(mode: SortMode, input: Seq<FileEntry>, output: Seq<FileEntry>) -> bool {
    exists|p: Seq<int>| sort_witness(mode, input, output, p)
}

proof fn lemma_drawn_bound(input: Seq<FileEntry>, out: Seq<FileEntry>, p: Seq<int>, i: int)
    requires
        drawn_from(input, out, p, i),
    ensures
        forall|k: int| 0 <= k < p.len() ==> #[trigger] p[k] < i,
        out.len() == p.len(),
{
    reveal(drawn_from);
}

proof fn lemma_insert_drawn(input: Seq<FileEntry>, out: Seq<FileEntry>, p: Seq<int>, i: int, j: int)
    requires
        0 <= i < input.len(),
        0 <= j <= out.len(),
        drawn_from(input, out, p, i),
    ensures
        drawn_from(input, out.insert(j, input[i]), p.insert(j, i), i + 1),
{
    reveal(drawn_from);
    let o2 = out.insert(j, input[i]);
    let p2 = p.insert(j, i);
    assert forall|k: int| 0 <= k < p2.len() implies 0 <= #[trigger] p2[k] < i + 1 && o2[k] == input[p2[k]] by {
        if k < j {
            assert(p2[k] == p[k] && o2[k] == out[k]);
        } else if k > j {
            assert(p2[k] == p[k - 1] && o2[k] == out[k - 1]);
        }
    }
}

proof fn lemma_insert_injective(p: Seq<int>, i: int, j: int)
    requires
        0 <= j <= p.len(),
        injective(p),
        forall|k: int| 0 <= k < p.len() ==> #[trigger] p[k] < i,
    ensures
        injective(p.insert(j, i)),
{
    reveal(injective);
    let p2 = p.insert(j, i);
    assert forall|k1: int, k2: int| 0 <= k1 < k2 < p2.len() implies #[trigger] p2[k1] != #[trigger] p2[k2] by {
        if k1 == j {
            assert(p2[k2] == p[k2 - 1]);
        } else if k2 == j {
            assert(p2[k1] == p[k1]);
        } else {
            let a1 = if k1 < j { k1 } else { k1 - 1 };
            let a2 = if k2 < j { k2 } else { k2 - 1 };
            assert(p2[k1] == p[a1] && p2[k2] == p[a2]);
        }
    }
}

proof fn lemma_insert_covers(p: Seq<int>, i: int, j: int)
    requires
        0 <= j <= p.len(),
        covers(p, i),
    ensures
        covers(p.insert(j, i), i + 1),
{
    reveal(covers);
    let p2 = p.insert(j, i);
    assert forall|t: int| 0 <= t < i + 1 implies #[trigger] p2.contains(t) by {
        if t == i {
            assert(p2[j] == t);
        } else {
            assert(p.contains(t));
            let k0 = choose|k: int| 0 <= k < p.len() && #[trigger] p[k] == t;
            if k0 < j {
                assert(p2[k0] == t);
            } else {
                assert(p2[k0 + 1] == t);
            }
        }
    }
}

proof fn lemma_insert_after(mode: SortMode, out: Seq<FileEntry>, x: FileEntry, j: int)
    requires
        0 <= j <= out.len(),
        forall|k: int| j <= k < out.len() ==> entry_rank(mode, #[trigger] out[k], x) == Rank::After,
    ensures
        forall|k: int| j < k < out.len() + 1 ==> entry_rank(mode, x, #[trigger] out.insert(j, x)[k]) == Rank::Before,
{
    let o2 = out.insert(j, x);
    assert forall|k: int| j < k < out.len() + 1 implies entry_rank(mode, x, #[trigger] o2[k]) == Rank::Before by {
        assert(o2[k] == out[k - 1]);
        lemma_entry_rank_flip(mode, out[k - 1], x);
    }
}

proof fn lemma_insert_in_order(mode: SortMode, out: Seq<FileEntry>, x: FileEntry, j: int)
    requires
        0 <= j <= out.len(),
        in_order(mode, out),
        j > 0 ==> entry_rank(mode, out[j - 1], x) != Rank::After,
        forall|k: int| j <= k < out.len() ==> entry_rank(mode, #[trigger] out[k], x) == Rank::After,
    ensures
        in_order(mode, out.insert(j, x)),
{
    reveal(in_order);
    let o2 = out.insert(j, x);
    lemma_insert_after(mode, out, x, j);
    assert forall|k1: int, k2: int| 0 <= k1 && k2 == k1 + 1 && k2 < o2.len()
        implies #[trigger] entry_rank(mode, o2[k1], o2[k2]) != Rank::After by {
        let k = k1;
        if k < j - 1 {
            assert(o2[k] == out[k] && o2[k + 1] == out[k + 1]);
            assert(entry_rank(mode, out[k], out[k + 1]) != Rank::After);
        } else if k == j - 1 {
            assert(o2[k] == out[k]);
        } else if k == j {
            assert(entry_rank(mode, x, o2[k + 1]) == Rank::Before);
        } else {
            assert(o2[k] == out[k - 1] && o2[k + 1] == out[k]);
            assert(entry_rank(mode, out[k - 1], out[k]) != Rank::After);
        }
    }
}

proof fn lemma_insert_keeps_ties(mode: SortMode, out: Seq<FileEntry>, p: Seq<int>, x: FileEntry, i: int, j: int)
    requires
        0 <= j <= out.len(),
        out.len() == p.len(),
        keeps_ties(mode, out, p),
        forall|k: int| 0 <= k < p.len() ==> #[trigger] p[k] < i,
        forall|k: int| j <= k < out.len() ==> entry_rank(mode, #[trigger] out[k], x) == Rank::After,
    ensures
        keeps_ties(mode, out.insert(j, x), p.insert(j, i)),
{
    reveal(keeps_ties);
    let o2 = out.insert(j, x);
    let p2 = p.insert(j, i);
    lemma_insert_after(mode, out, x, j);
    assert forall|k1: int, k2: int|
        0 <= k1 < k2 < o2.len() && entry_rank(mode, #[trigger] o2[k1], #[trigger] o2[k2]) == Rank::Same
            implies p2[k1] < p2[k2] by {
        if k1 == j {
            assert(entry_rank(mode, x, o2[k2]) == Rank::Before);
        } else if k2 == j {
            assert(p2[k1] == p[k1]);
        } else {
            let a1 = if k1 < j { k1 } else { k1 - 1 };
            let a2 = if k2 < j { k2 } else { k2 - 1 };
            assert(p2[k1] == p[a1] && p2[k2] == p[a2]);
            assert(o2[k1] == out[a1] && o2[k2] == out[a2]);
        }
    }
}

/// Sorts `v` by `mode`, keeping entries that rank the same in their order.
pub fn stable_sort(v: Vec<FileEntry>, mode: SortMode) -> (out: Vec<FileEntry>)
    ensures
        is_stable_sort(mode, v@, out@),
{
    let ghost input = v@;
    let n = v.len();
    let mut rest = v;
    let mut out: Vec<FileEntry> = Vec::new();
    let ghost mut p: Seq<int> = Seq::empty();
    let mut i: usize = 0;
    proof {
        reveal(drawn_from);
        reveal(injective);
        reveal(covers);
        reveal(in_order);
        reveal(keeps_ties);
    }
    while i < n
        invariant
            n == input.len(),
            i <= n,
            rest@ == input.skip(i as int),
            p.len() == i,
            drawn_from(input, out@, p, i as int),
            injective(p),
            covers(p, i as int),
            in_order(mode, out@),
            keeps_ties(mode, out@, p),
        decreases n - i,
    {
        assert(rest@[0] == input[i as int]);
        let x = rest.remove(0);
        assert(rest@ =~= input.skip(i + 1));
        let mut j: usize = out.len();
        while j > 0 && entry_compare(mode, &out[j - 1], &x) == Rank::After
            invariant
                j <= out@.len(),
                forall|k: int| j <= k < out@.len() ==> entry_rank(mode, #[trigger] out@[k], x) == Rank::After,
            decreases j,
        {
            j = j - 1;
        }
        proof {
            lemma_drawn_bound(input, out@, p, i as int);
            lemma_insert_drawn(input, out@, p, i as int, j as int);
            lemma_insert_injective(p, i as int, j as int);
            lemma_insert_covers(p, i as int, j as int);
            lemma_insert_in_order(mode, out@, x, j as int);
            lemma_insert_keeps_ties(mode, out@, p, x, i as int, j as int);
            p = p.insert(j as int, i as int);
        }
        out.insert(j, x);
        i = i + 1;
    }
    proof {
        assert(sort_witness(mode, input, out@, p));
    }
    out
}

/// A sort keeps the number of entries.
pub proof fn lemma_witness_len(mode: SortMode, input: Seq<FileEntry>, output: Seq<FileEntry>, p: Seq<int>)
    requires
        sort_witness(mode, input, output, p),
    ensures
        output.len() == input.len(),
{
    reveal(drawn_from);
}

/// Every input entry is found in the sorted output.
pub proof fn lemma_witness_finds(mode: SortMode, input: Seq<FileEntry>, output: Seq<FileEntry>, p: Seq<int>, t: int)
    requires
        sort_witness(mode, input, output, p),
        0 <= t < input.len(),
    ensures
        exists|k: int| 0 <= k < output.len() && output[k] == input[t],
{
    reveal(drawn_from);
    reveal(covers);
    assert(p.contains(t));
    let k = choose|k: int| 0 <= k < p.len() && p[k] == t;
    assert(output[k] == input[t]);
}

proof fn lemma_text_rank_same(a: Seq<char>)
    ensures
        text_rank(a, a) == Rank::Same,
    decreases a.len(),
{
    if a.len() > 0 {
        lemma_text_rank_same(a.skip(1));
    }
}

/// Sorting by extension ignores the case of the extensions: entries whose
/// extensions are the same once lower-cased are ties, and an entry whose
/// extension lower-cases as another's ranks against every entry as that
/// other does.
pub proof fn law_extension_rank_ignores_case(a: FileEntry, b: FileEntry, a2: FileEntry, b2: FileEntry)
    requires
        lowercase_of(extension_text(a.name@)) == lowercase_of(extension_text(a2.name@)),
        lowercase_of(extension_text(b.name@)) == lowercase_of(extension_text(b2.name@)),
    ensures
        entry_rank(SortMode::Extension, a, b) == entry_rank(SortMode::Extension, a2, b2),
        lowercase_of(extension_text(a.name@)) == lowercase_of(extension_text(b.name@)) ==> entry_rank(
            SortMode::Extension,
            a,
            b,
        ) == Rank::Same,
{
    reveal(entry_rank);
    lemma_text_rank_same(lowercase_of(extension_text(a.name@)));
}

/// `x` comes before `y` in dictionary order by code point: they agree up
/// to some place where `x` ends and `y` goes on, or where `x`'s character
/// is the smaller.
pub open spec fn lex_before(x: Seq<char>, y: Seq<char>) -> bool {
    exists|i: int|
        0 <= i <= x.len() && i < y.len() && #[trigger] x.take(i) == y.take(i) && (i == x.len() || x[i] < y[i])
}

proof fn lemma_text_rank_lex(x: Seq<char>, y: Seq<char>)
    ensures
        (text_rank(x, y) == Rank::Before) == lex_before(x, y),
        (text_rank(x, y) == Rank::Same) == (x == y),
    decreases x.len(),
{
    if x.len() == 0 && y.len() == 0 {
        assert(x =~= y);
    } else if x.len() == 0 {
        assert(x.take(0) =~= y.take(0));
    } else if y.len() == 0 {
        assert(x != y);
    } else if x[0] < y[0] {
        assert(x.take(0) =~= y.take(0));
        assert(x[0] != y[0]);
    } else if x[0] > y[0] {
        if lex_before(x, y) {
            let i = choose|i: int|
                0 <= i <= x.len() && i < y.len() && #[trigger] x.take(i) == y.take(i) && (i == x.len() || x[i] < y[i]);
            if i > 0 {
                assert(x.take(i)[0] == y.take(i)[0]);
            }
        }
        assert(x[0] != y[0]);
    } else {
        let (xs, ys) = (x.skip(1), y.skip(1));
        lemma_text_rank_lex(xs, ys);
        if lex_before(x, y) {
            let i = choose|i: int|
                0 <= i <= x.len() && i < y.len() && #[trigger] x.take(i) == y.take(i) && (i == x.len() || x[i] < y[i]);
            assert(i > 0);
            assert(xs.take(i - 1) =~= x.take(i).skip(1));
            assert(ys.take(i - 1) =~= y.take(i).skip(1));
            assert(lex_before(xs, ys));
        }
        if lex_before(xs, ys) {
            let i = choose|i: int|
                0 <= i <= xs.len() && i < ys.len() && #[trigger] xs.take(i) == ys.take(i) && (i == xs.len() || xs[i] < ys[i]);
            assert(x.take(i + 1) =~= seq![x[0]] + xs.take(i));
            assert(y.take(i + 1) =~= seq![y[0]] + ys.take(i));
            assert(lex_before(x, y));
        }
        if x == y {
            assert(xs =~= ys);
        }
        if xs == ys {
            assert(x =~= seq![x[0]] + xs);
            assert(y =~= seq![y[0]] + ys);
        }
    }
}

/// Sorting by extension puts an entry first exactly when its extension,
/// lower-cased, comes first in dictionary order by code point, and ties
/// exactly the entries whose lower-cased extensions are the same.
pub proof fn law_extension_rank_order(a: FileEntry, b: FileEntry)
    ensures
        (entry_rank(SortMode::Extension, a, b) == Rank::Before) == lex_before(
            lowercase_of(extension_text(a.name@)),
            lowercase_of(extension_text(b.name@)),
        ),
        (entry_rank(SortMode::Extension, a, b) == Rank::Same) == (lowercase_of(extension_text(a.name@))
            == lowercase_of(extension_text(b.name@))),
{
    reveal(entry_rank);
    lemma_text_rank_lex(lowercase_of(extension_text(a.name@)), lowercase_of(extension_text(b.name@)));
}

} // verus!
