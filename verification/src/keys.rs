//! What the viewer's keys do: from the keys pressed in a frame and the
//! display flags, the flags after the frame and the actions to carry out,
//! in order.

use vstd::prelude::*;

verus! {

/// The keys pressed in one frame: the named keys, and the characters
/// typed, in order.
pub struct KeyInput {
    pub right: bool,
    pub left: bool,
    pub home: bool,
    pub end: bool,
    pub f11: bool,
    pub escape: bool,
    pub minus: bool,
    pub ctrl_o: bool,
    pub ctrl_shift_s: bool,
    pub ctrl_y: bool,
    pub ctrl_k: bool,
    pub ctrl_c: bool,
    pub ctrl_z: bool,
    pub delete: bool,
    pub texts: Vec<String>,
}

/// The display flags the keys switch.
#[derive(Clone, Copy, Debug, PartialEq, Eq, Structural)]
pub struct DisplayFlags {
    pub fullscreen: bool,
    pub show_info: bool,
    pub slideshow_active: bool,
}

/// An action for the viewer to carry out.
#[derive(Clone, Copy, Debug, PartialEq, Eq, Structural)]
pub enum ViewAction {
    Next,
    Prev,
    First,
    Last,
    ZoomOut,
    OpenDialog,
    ZoomIn,
    FitWindow,
    ActualSize,
    CycleFit,
    RotateCw,
    RotateCcw,
    FlipH,
    FlipV,
    RestartSlideshowTimer,
    ClearSelection,
    ExitCompare,
    SaveAs,
    CropToSelection,
    Compare,
    CopyImage,
    UndoCrop,
    ConfirmDelete,
}

/// `t` is the single character `c`.
pub open spec fn is_char(t: Seq<char>, c: char) -> bool {
    t.len() == 1 && t[0] == c
}

/// The action a typed character asks for, where it asks for one.
pub open spec fn text_action(t: Seq<char>) -> Option<ViewAction> {
    if is_char(t, '+') || is_char(t, '=') {
        Some(ViewAction::ZoomIn)
    } else if is_char(t, '0') {
        Some(ViewAction::FitWindow)
    } else if is_char(t, '1') {
        Some(ViewAction::ActualSize)
    } else if is_char(t, 'f') {
        Some(ViewAction::CycleFit)
    } else if is_char(t, 'r') {
        Some(ViewAction::RotateCw)
    } else if is_char(t, 'l') {
        Some(ViewAction::RotateCcw)
    } else if is_char(t, 'h') {
        Some(ViewAction::FlipH)
    } else if is_char(t, 'v') {
        Some(ViewAction::FlipV)
    } else if is_char(t, 's') {
        Some(ViewAction::RestartSlideshowTimer)
    } else {
        None
    }
}

/// One typed character applied to the flags: `i` shows or hides the info
/// panel, `s` starts or stops the slideshow (starting it goes full
/// screen).
pub open spec fn text_flags(f: DisplayFlags, t: Seq<char>) -> DisplayFlags {
    if is_char(t, 'i') {
        DisplayFlags { show_info: !f.show_info, ..f }
    } else if is_char(t, 's') {
        DisplayFlags {
            slideshow_active: !f.slideshow_active,
            fullscreen: if !f.slideshow_active { true } else { f.fullscreen },
            ..f
        }
    } else {
        f
    }
}

/// The typed characters applied in turn: the flags after them and the
/// actions they ask for.
pub open spec fn after_texts(f: DisplayFlags, ts: Seq<Seq<char>>) -> (DisplayFlags, Seq<ViewAction>)
    decreases ts.len(),
{
    if ts.len() == 0 {
        (f, Seq::empty())
    } else {
        let (f1, a1) = after_texts(f, ts.drop_last());
        let t = ts.last();
        (
            text_flags(f1, t),
            match text_action(t) {
                Some(a) => a1.push(a),
                None => a1,
            },
        )
    }
}

/// The named keys with the action each asks for, in the order the
/// actions are carried out: Escape clears the selection and leaves the
/// compare view first; Delete only asks for confirmation.
pub open spec fn key_bindings(i: KeyInput) -> Seq<(bool, ViewAction)> {
    seq![
        (i.escape, ViewAction::ClearSelection),
        (i.escape, ViewAction::ExitCompare),
        (i.right, ViewAction::Next),
        (i.left, ViewAction::Prev),
        (i.home, ViewAction::First),
        (i.end, ViewAction::Last),
        (i.minus, ViewAction::ZoomOut),
        (i.ctrl_o, ViewAction::OpenDialog),
        (i.ctrl_shift_s, ViewAction::SaveAs),
        (i.ctrl_y, ViewAction::CropToSelection),
        (i.ctrl_k, ViewAction::Compare),
        (i.ctrl_c, ViewAction::CopyImage),
        (i.ctrl_z, ViewAction::UndoCrop),
        (i.delete, ViewAction::ConfirmDelete),
    ]
}

/// The actions of the bindings whose key is pressed, in order.
pub open spec fn pressed(b: Seq<(bool, ViewAction)>) -> Seq<ViewAction>
    decreases b.len(),
{
    if b.len() == 0 {
        Seq::empty()
    } else if b.last().0 {
        pressed(b.drop_last()).push(b.last().1)
    } else {
        pressed(b.drop_last())
    }
}

/// The named keys' actions, in the order they are carried out.
pub open spec fn key_actions(i: KeyInput) -> Seq<ViewAction> {
    pressed(key_bindings(i))
}

/// The flags after the named keys: Escape stops a slideshow, or else
/// leaves full screen; F11 switches full screen.
pub open spec fn key_flags(f: DisplayFlags, i: KeyInput) -> DisplayFlags {
    let stop = i.escape && f.slideshow_active;
    let toggle = i.f11 || (i.escape && !f.slideshow_active && f.fullscreen);
    DisplayFlags {
        slideshow_active: if stop { false } else { f.slideshow_active },
        fullscreen: if toggle { !f.fullscreen } else { f.fullscreen },
        ..f
    }
}

/// The views of the typed characters.
pub open spec fn text_views(ts: Seq<String>) -> Seq<Seq<char>> {
    Seq::new(ts.len(), |k: int| ts[k]@)
}

/// A frame's keys: the flags after it and the actions, the named keys'
/// first, then the typed characters'.
pub open spec fn key_frame(f: DisplayFlags, i: KeyInput) -> (DisplayFlags, Seq<ViewAction>) {
    let (f2, a2) = after_texts(key_flags(f, i), text_views(i.texts@));
    (f2, key_actions(i) + a2)
}

fn text_step(flags: &mut DisplayFlags, t: &str) -> (r: Option<ViewAction>)
    ensures
        *final(flags) == text_flags(*old(flags), t@),
        r == text_action(t@),
{
    let v = crate::text::chars_of(t);
    if v.len() != 1 {
        return None;
    }
    let c = v[0];
    if c == '+' || c == '=' {
        Some(ViewAction::ZoomIn)
    } else if c == '0' {
        Some(ViewAction::FitWindow)
    } else if c == '1' {
        Some(ViewAction::ActualSize)
    } else if c == 'f' {
        Some(ViewAction::CycleFit)
    } else if c == 'i' {
        flags.show_info = !flags.show_info;
        None
    } else if c == 'r' {
        Some(ViewAction::RotateCw)
    } else if c == 'l' {
        Some(ViewAction::RotateCcw)
    } else if c == 'h' {
        Some(ViewAction::FlipH)
    } else if c == 'v' {
        Some(ViewAction::FlipV)
    } else if c == 's' {
        flags.slideshow_active = !flags.slideshow_active;
        if flags.slideshow_active {
            flags.fullscreen = true;
        }
        Some(ViewAction::RestartSlideshowTimer)
    } else {
        None
    }
}

/// Handles a frame's keys (see `key_frame`): updates the flags and gives
/// the actions to carry out, in order.
pub fn plan_keys(flags: &mut DisplayFlags, input: &KeyInput) -> (actions: Vec<ViewAction>)
    ensures
        (*final(flags), actions@) == key_frame(*old(flags), *input),
{
    let mut toggle = input.f11;
    if input.escape {
        if flags.slideshow_active {
            flags.slideshow_active = false;
        } else if flags.fullscreen {
            toggle = true;
        }
    }
    if toggle {
        flags.fullscreen = !flags.fullscreen;
    }
    let bindings: Vec<(bool, ViewAction)> = vec![
        (input.escape, ViewAction::ClearSelection),
        (input.escape, ViewAction::ExitCompare),
        (input.right, ViewAction::Next),
        (input.left, ViewAction::Prev),
        (input.home, ViewAction::First),
        (input.end, ViewAction::Last),
        (input.minus, ViewAction::ZoomOut),
        (input.ctrl_o, ViewAction::OpenDialog),
        (input.ctrl_shift_s, ViewAction::SaveAs),
        (input.ctrl_y, ViewAction::CropToSelection),
        (input.ctrl_k, ViewAction::Compare),
        (input.ctrl_c, ViewAction::CopyImage),
        (input.ctrl_z, ViewAction::UndoCrop),
        (input.delete, ViewAction::ConfirmDelete),
    ];
    assert(bindings@ =~= key_bindings(*input));
    let mut actions: Vec<ViewAction> = Vec::new();
    let mut b: usize = 0;
    while b < bindings.len()
        invariant
            b <= bindings@.len(),
            actions@ == pressed(bindings@.take(b as int)),
        decreases bindings@.len() - b,
    {
        assert(bindings@.take(b + 1).drop_last() =~= bindings@.take(b as int));
        if bindings[b].0 {
            actions.push(bindings[b].1);
        }
        b = b + 1;
    }
    assert(bindings@.take(bindings@.len() as int) =~= bindings@);
    assert(*flags == key_flags(*old(flags), *input));
    assert(actions@ == key_actions(*input));
    let ghost f0 = *flags;
    let ghost prefix = actions@;
    let ghost ts = text_views(input.texts@);
    let mut k: usize = 0;
    while k < input.texts.len()
        invariant
            k <= input.texts@.len(),
            ts == text_views(input.texts@),
            (*flags, actions@) == ({
                let (f2, a2) = after_texts(f0, ts.take(k as int));
                (f2, prefix + a2)
            }),
        decreases input.texts@.len() - k,
    {
        assert(ts.take(k + 1).drop_last() =~= ts.take(k as int));
        assert(ts.take(k + 1).last() == input.texts@[k as int]@);
        let ghost before = actions@;
        match text_step(flags, input.texts[k].as_str()) {
            Some(a) => {
                actions.push(a);
                assert(actions@ =~= before.push(a));
                assert(prefix + after_texts(f0, ts.take(k as int)).1.push(a) =~= (prefix + after_texts(
                    f0,
                    ts.take(k as int),
                ).1).push(a));
            },
            None => {},
        }
        k = k + 1;
    }
    assert(ts.take(input.texts@.len() as int) =~= ts);
    actions
}

/// Starting the slideshow goes full screen.
pub proof fn law_slideshow_starts_fullscreen(f: DisplayFlags)
    requires
        !f.slideshow_active,
    ensures
        text_flags(f, seq!['s']).slideshow_active,
        text_flags(f, seq!['s']).fullscreen,
{
}

/// Escape during a slideshow stops it and stays in full screen; pressed
/// again, it leaves full screen.
pub proof fn law_escape_stops_slideshow_first(f: DisplayFlags, i: KeyInput)
    requires
        i.escape,
        !i.f11,
        f.slideshow_active,
        f.fullscreen,
    ensures
        !key_flags(f, i).slideshow_active,
        key_flags(f, i).fullscreen,
        !key_flags(key_flags(f, i), i).fullscreen,
{
}

proof fn lemma_pressed_append(a: Seq<(bool, ViewAction)>, c: Seq<(bool, ViewAction)>)
    ensures
        pressed(a + c) == pressed(a) + pressed(c),
    decreases c.len(),
{
    if c.len() == 0 {
        assert(a + c =~= a);
        assert(pressed(a) + pressed(c) =~= pressed(a));
    } else {
        lemma_pressed_append(a, c.drop_last());
        assert((a + c).drop_last() =~= a + c.drop_last());
        assert((a + c).last() == c.last());
        if c.last().0 {
            assert(pressed(a) + pressed(c.drop_last()).push(c.last().1) =~= (pressed(a) + pressed(
                c.drop_last(),
            )).push(c.last().1));
        }
    }
}

proof fn lemma_pressed_without(b: Seq<(bool, ViewAction)>, x: ViewAction)
    requires
        forall|k: int| 0 <= k < b.len() ==> (#[trigger] b[k]).1 != x,
    ensures
        !pressed(b).contains(x),
    decreases b.len(),
{
    if b.len() > 0 {
        assert forall|k: int| 0 <= k < b.drop_last().len() implies (#[trigger] b.drop_last()[k]).1 != x by {
            assert(b.drop_last()[k] == b[k]);
        }
        lemma_pressed_without(b.drop_last(), x);
        assert(b[b.len() - 1].1 != x);
    }
}

/// Escape always clears the selection and leaves the compare view, before
/// anything else the frame does.
pub proof fn law_escape_clears_selection(f: DisplayFlags, i: KeyInput)
    requires
        i.escape,
    ensures
        key_frame(f, i).1.len() > 1,
        key_frame(f, i).1[0] == ViewAction::ClearSelection,
        key_frame(f, i).1[1] == ViewAction::ExitCompare,
{
    let b = key_bindings(i);
    lemma_pressed_append(b.take(2), b.skip(2));
    assert(b.take(2) + b.skip(2) =~= b);
    assert(b.take(2).drop_last() =~= b.take(1));
    assert(b.take(1).drop_last() =~= b.take(0));
    assert(b.take(1).last() == (true, ViewAction::ClearSelection));
    assert(b.take(2).last() == (true, ViewAction::ExitCompare));
    assert(pressed(b.take(0)) =~= Seq::<ViewAction>::empty());
    assert(pressed(b.take(1)) =~= seq![ViewAction::ClearSelection]);
    assert(pressed(b.take(2)) =~= seq![ViewAction::ClearSelection, ViewAction::ExitCompare]);
    let (f2, texts) = after_texts(key_flags(f, i), text_views(i.texts@));
    let acts = key_actions(i);
    assert((acts + texts)[0] == acts[0]);
    assert((acts + texts)[1] == acts[1]);
}

/// Delete never deletes by itself: a frame's actions hold a request for
/// confirmation exactly when Delete was pressed.
pub proof fn law_delete_asks_first(f: DisplayFlags, i: KeyInput)
    ensures
        key_frame(f, i).1.contains(ViewAction::ConfirmDelete) <==> i.delete,
{
    let b = key_bindings(i);
    let n = (b.len() - 1) as int;
    lemma_pressed_append(b.take(n), b.skip(n));
    assert(b.take(n) + b.skip(n) =~= b);
    assert forall|k: int| 0 <= k < b.take(n).len() implies (#[trigger] b.take(n)[k]).1
        != ViewAction::ConfirmDelete by {
        assert(b.take(n)[k] == b[k]);
    }
    lemma_pressed_without(b.take(n), ViewAction::ConfirmDelete);
    let last = b.skip(n);
    assert(last.drop_last() =~= Seq::<(bool, ViewAction)>::empty());
    assert(last.last() == (i.delete, ViewAction::ConfirmDelete));
    let acts = key_actions(i);
    let (f2, texts) = after_texts(key_flags(f, i), text_views(i.texts@));
    lemma_texts_never_delete(key_flags(f, i), text_views(i.texts@));
    let all = acts + texts;
    let head = pressed(b.take(n));
    if i.delete {
        assert(pressed(last) =~= seq![ViewAction::ConfirmDelete]);
        assert(all[head.len() as int] == ViewAction::ConfirmDelete);
    } else {
        assert(pressed(last) =~= Seq::<ViewAction>::empty());
        assert(acts =~= head);
        assert forall|k: int| 0 <= k < all.len() implies all[k] != ViewAction::ConfirmDelete by {
            if k < acts.len() {
                assert(all[k] == head[k]);
            } else {
                assert(all[k] == texts[k - acts.len()]);
            }
        }
    }
}

proof fn lemma_texts_never_delete(f: DisplayFlags, ts: Seq<Seq<char>>)
    ensures
        forall|k: int| 0 <= k < after_texts(f, ts).1.len() ==> after_texts(f, ts).1[k] != ViewAction::ConfirmDelete,
    decreases ts.len(),
{
    if ts.len() > 0 {
        lemma_texts_never_delete(f, ts.drop_last());
    }
}

/// Typing `i` twice shows and hides the info panel again, leaving the
/// other flags as they were.
pub proof fn law_info_toggle_twice(f: DisplayFlags)
    ensures
        text_flags(text_flags(f, seq!['i']), seq!['i']) == f,
{
}

} // verus!
