//! The walk that writes a value the way the console shows it. The engine
//! that holds the value is read by the caller; this module decides, from
//! what the caller reports, what is written and what must be read next: a
//! step function from the walk's state and one report to the next state,
//! the text appended, and the next question.
use vstd::prelude::*;

use crate::logging::{
    bitmask, classify_object, decimal_text, format_scalar, is_typed_array_name, mask_of,
    masked_color, member_prefix_text, object_class_of, object_close_text, promise_close_text,
    promise_open_text, scalar_text, stack_text, write_circular, write_class_name,
    write_collapsed_object, write_date, write_error, write_member_prefix, write_more_items,
    write_object_close, write_object_open, write_promise_close, write_promise_open, write_regexp, Color,
    FormatOptions, ObjectClass, PromiseStatus, ScalarValue, MAX_EXPANSION_DEPTH,
    MAX_INDENTATION_LEVEL,
};

verus! {

/// A key of an object's member, and whether it reads as a number.
pub struct MemberKey {
    pub name: String,
    pub numeric: bool,
}

/// What the caller reports of a value that the walk asked for.
pub enum ValueFacts {
    /// A value written without looking into it.
    Scalar(ScalarValue),
    /// A promise, by its state.
    Promise(PromiseStatus),
    /// An array, an object or an exception: an identity that is the same
    /// for the same engine object within one walk, whether its type is
    /// `Object` (not an array or an exception), whether it is an error, and
    /// whether the engine sees it as an array.
    Object { id: u64, is_object: bool, is_error: bool, engine_array: bool },
}

/// One report of the caller, answering the walk's last question.
pub enum FormatEvent {
    /// The value asked for.
    Value(ValueFacts),
    /// The name, message and stack (when it has one) of an error.
    ErrorParts { name: String, message: String, stack: Option<String> },
    /// The name of the object's class, when it has one.
    ClassName(Option<String>),
    /// The ISO text of a date.
    DateText(String),
    /// The source and flags of a regular expression.
    RegExpParts { source: String, flags: String },
    /// Whether the object has a custom inspection object, which is then
    /// written in its place.
    Inspect(bool),
    /// The keys of the object (or of its inspection object).
    Keys(Vec<MemberKey>),
    /// The own keys of the object's prototype, when it has one other than
    /// `Object.prototype`.
    PrototypeKeys(Option<Vec<MemberKey>>),
}

/// What the walk waits for.
#[derive(Clone, Copy, PartialEq, Eq, Structural)]
pub enum Pending {
    /// The value to write at the root.
    Value,
    /// The settled value of the promise on top of the walk.
    PromiseResult,
    /// The value of the current member of the object on top of the walk.
    MemberValue,
    ErrorParts,
    ClassName,
    DateText,
    RegExpParts,
    Inspect,
    Keys,
    PrototypeKeys,
    /// The value is written.
    Done,
}

/// What the walk knows of the value at hand.
#[derive(Clone, Copy)]
pub struct Cursor {
    pub depth: usize,
    pub is_object: bool,
    pub engine_array: bool,
    pub is_array: bool,
    pub inspected: bool,
}

/// A value that is being written around the values inside it.
pub enum Frame {
    /// A settled promise at `depth`.
    Promise { depth: usize, status: PromiseStatus },
    /// An object or array at `depth` whose members are being written: the
    /// member at `index` is the current one.
    Object {
        depth: usize,
        is_array: bool,
        inspected: bool,
        keys: Vec<MemberKey>,
        filter: bool,
        index: usize,
        any_member: bool,
    },
}

/// A frame as a mathematical value.
pub enum FrameModel {
    Promise { depth: usize, status: PromiseStatus },
    Object {
        depth: usize,
        is_array: bool,
        inspected: bool,
        keys: Seq<(Seq<char>, bool)>,
        filter: bool,
        index: usize,
        any_member: bool,
    },
}

/// The state of a walk as a mathematical value: the identities of the
/// objects met so far, the frames, what the walk waits for, and what it
/// knows of the value at hand.
pub struct WalkModel {
    pub visited: Seq<u64>,
    pub frames: Seq<FrameModel>,
    pub pending: Pending,
    pub cursor: Cursor,
}

/// The next question of the walk to the caller.
pub enum NextRead {
    /// Read the value to write.
    Value,
    /// Read the settled value of the promise of frame `level`.
    PromiseResult { level: usize },
    /// Read member `key` of the object of frame `level`.
    Member { level: usize, key: String },
    ErrorParts,
    ClassName,
    DateText,
    RegExpParts,
    /// Look for a custom inspection object; the object written is the
    /// object of frame `level`.
    Inspect { level: usize },
    Keys,
    PrototypeKeys,
    /// Nothing more: the value is written.
    Done,
}

pub open spec fn key_views(ks: Seq<MemberKey>) -> Seq<(Seq<char>, bool)> {
    Seq::new(ks.len(), |i: int| (ks[i].name@, ks[i].numeric))
}

pub open spec fn frame_model(f: Frame) -> FrameModel {
    match f {
        Frame::Promise { depth, status } => FrameModel::Promise { depth, status },
        Frame::Object { depth, is_array, inspected, keys, filter, index, any_member } =>
            FrameModel::Object {
            depth,
            is_array,
            inspected,
            keys: key_views(keys@),
            filter,
            index,
            any_member,
        },
    }
}

pub open spec fn frame_models(s: Seq<Frame>) -> Seq<FrameModel> {
    Seq::new(s.len(), |i: int| frame_model(s[i]))
}

proof fn lemma_frame_models_push(s: Seq<Frame>, f: Frame)
    ensures
        frame_models(s.push(f)) == frame_models(s).push(frame_model(f)),
{
    assert(frame_models(s.push(f)) =~= frame_models(s).push(frame_model(f)));
}

proof fn lemma_frame_models_drop_last(s: Seq<Frame>)
    requires
        s.len() > 0,
    ensures
        frame_models(s.drop_last()) == frame_models(s).drop_last(),
        frame_models(s).last() == frame_model(s.last()),
{
    assert(frame_models(s.drop_last()) =~= frame_models(s).drop_last());
}

pub open spec fn with_frames(w: WalkModel, frames: Seq<FrameModel>) -> WalkModel {
    WalkModel { visited: w.visited, frames, pending: w.pending, cursor: w.cursor }
}

pub open spec fn with_pending(w: WalkModel, pending: Pending) -> WalkModel {
    WalkModel { visited: w.visited, frames: w.frames, pending, cursor: w.cursor }
}

/// The walk of a value not yet read, at the root.
pub open spec fn initial_walk() -> WalkModel {
    WalkModel {
        visited: Seq::empty(),
        frames: Seq::empty(),
        pending: Pending::Value,
        cursor: Cursor {
            depth: 0,
            is_object: false,
            engine_array: false,
            is_array: false,
            inspected: false,
        },
    }
}

/// The reset sequence when colors are on.
pub open spec fn reset_text(opts: FormatOptions) -> Seq<char> {
    masked_color(Color::RESET, mask_of(opts.color))
}

/// What ends the members of an object: the closing text, then the reset
/// sequence unless a custom inspection object was written.
pub open spec fn object_end_text(
    is_array: bool,
    inspected: bool,
    any_member: bool,
    depth: usize,
    opts: FormatOptions,
) -> Seq<char> {
    object_close_text(any_member, is_array, depth as int, opts.newline) + (if inspected {
        Seq::empty()
    } else {
        reset_text(opts)
    })
}

/// What happens when the value at hand is written: each promise around it
/// is closed, and so is each object around it whose members are all
/// written, or which has had more than a hundred members (then a note says
/// how many are left). The walk then waits for the next member of the
/// innermost object that has one, or is done.
pub open spec fn finish(w: WalkModel, opts: FormatOptions) -> (WalkModel, Seq<char>)
    decreases w.frames.len(),
{
    if w.frames.len() == 0 {
        (with_pending(w, Pending::Done), Seq::empty())
    } else {
        let rest = with_frames(w, w.frames.drop_last());
        match w.frames.last() {
            FrameModel::Promise { depth, status } => {
                let (w2, t) = finish(rest, opts);
                (w2, promise_close_text(status, opts, depth as int) + t)
            },
            FrameModel::Object { depth, is_array, inspected, keys, filter, index, any_member } => {
                if index > 99 {
                    let (w2, t) = finish(rest, opts);
                    (
                        w2,
                        "... "@ + decimal_text(keys.len() - index) + " more items"@
                            + object_end_text(is_array, inspected, true, depth, opts) + t,
                    )
                } else if index + 1 < keys.len() {
                    (
                        with_pending(
                            with_frames(
                                w,
                                w.frames.drop_last().push(
                                    FrameModel::Object {
                                        depth,
                                        is_array,
                                        inspected,
                                        keys,
                                        filter,
                                        index: (index + 1) as usize,
                                        any_member: true,
                                    },
                                ),
                            ),
                            Pending::MemberValue,
                        ),
                        Seq::empty(),
                    )
                } else {
                    let (w2, t) = finish(rest, opts);
                    (w2, object_end_text(is_array, inspected, true, depth, opts) + t)
                }
            },
        }
    }
}

/// The object on top of the walk goes on from its current index: the
/// walk asks for that member, or closes the object when none is left.
pub open spec fn resume(w: WalkModel, opts: FormatOptions) -> (WalkModel, Seq<char>) {
    match w.frames.last() {
        FrameModel::Object { depth, is_array, inspected, keys, filter, index, any_member } => {
            if index < keys.len() {
                (with_pending(w, Pending::MemberValue), Seq::empty())
            } else {
                let (w2, t) = finish(with_frames(w, w.frames.drop_last()), opts);
                (w2, object_end_text(is_array, inspected, any_member, depth, opts) + t)
            }
        },
        FrameModel::Promise { .. } => (w, Seq::empty()),
    }
}

/// An object with the given class (when it has one that is written)
/// at the depth of the cursor: below the expansion depth its class name is
/// written and the walk asks for an inspection object; from that depth on
/// it is written as `[Object]` or `[Array]`.
pub open spec fn expand(w: WalkModel, class: Option<Seq<char>>, opts: FormatOptions) -> (
    WalkModel,
    Seq<char>,
) {
    let c = w.cursor;
    if c.depth < MAX_EXPANSION_DEPTH {
        let typed = class matches Some(n) && is_typed_array_name(n);
        let cursor = Cursor {
            depth: c.depth,
            is_object: c.is_object,
            engine_array: c.engine_array,
            is_array: typed || c.engine_array,
            inspected: c.inspected,
        };
        (
            WalkModel {
                visited: w.visited,
                frames: w.frames,
                pending: Pending::Inspect,
                cursor,
            },
            match class {
                Some(n) => n + seq![' '],
                None => Seq::empty(),
            },
        )
    } else {
        let (w2, t) = finish(w, opts);
        (
            w2,
            masked_color(Color::CYAN, mask_of(opts.color)) + (if c.is_object {
                "[Object]"@
            } else {
                "[Array]"@
            }) + reset_text(opts) + t,
        )
    }
}

/// The walk once it has met a new object `id` at `depth`: the identity is
/// remembered and the cursor is on the object.
pub open spec fn visited_walk(
    w: WalkModel,
    id: u64,
    is_object: bool,
    engine_array: bool,
    depth: usize,
) -> WalkModel {
    WalkModel {
        visited: w.visited.push(id),
        frames: w.frames,
        pending: w.pending,
        cursor: Cursor { depth, is_object, engine_array, is_array: false, inspected: false },
    }
}

/// A reported value at `depth`: a scalar is written; a pending promise is
/// written whole, a settled one is opened and its value asked for; an
/// object met before is written as `[Circular]`; another object is
/// remembered, then an error's parts are asked for, or an `Object`'s class
/// name, or an array or exception is expanded without a class.
pub open spec fn take_value(w: WalkModel, facts: ValueFacts, depth: usize, opts: FormatOptions) -> (
    WalkModel,
    Seq<char>,
) {
    match facts {
        ValueFacts::Scalar(v) => {
            let (w2, t) = finish(w, opts);
            (w2, scalar_text(v, mask_of(opts.color), depth as int) + reset_text(opts) + t)
        },
        ValueFacts::Promise(s) => {
            if s == PromiseStatus::Pending {
                let (w2, t) = finish(w, opts);
                (
                    w2,
                    promise_open_text(s, opts, depth as int) + promise_close_text(
                        s,
                        opts,
                        depth as int,
                    ) + t,
                )
            } else {
                (
                    WalkModel {
                        visited: w.visited,
                        frames: w.frames.push(FrameModel::Promise { depth, status: s }),
                        pending: Pending::PromiseResult,
                        cursor: Cursor {
                            depth: (depth + 1) as usize,
                            is_object: false,
                            engine_array: false,
                            is_array: false,
                            inspected: false,
                        },
                    },
                    promise_open_text(s, opts, depth as int),
                )
            }
        },
        ValueFacts::Object { id, is_object, is_error, engine_array } => {
            if w.visited.contains(id) {
                let (w2, t) = finish(w, opts);
                (
                    w2,
                    masked_color(Color::CYAN, mask_of(opts.color)) + "[Circular]"@ + reset_text(
                        opts,
                    ) + t,
                )
            } else {
                let w1 = visited_walk(w, id, is_object, engine_array, depth);
                if is_error {
                    (with_pending(w1, Pending::ErrorParts), Seq::empty())
                } else if is_object {
                    (with_pending(w1, Pending::ClassName), Seq::empty())
                } else {
                    expand(w1, None, opts)
                }
            }
        },
    }
}

/// The text of an error: as `write_error` writes it.
pub open spec fn error_text(
    name: Seq<char>,
    message: Seq<char>,
    stack: Option<Seq<char>>,
    opts: FormatOptions,
    depth: usize,
) -> Seq<char> {
    name + ": "@ + message + masked_color(Color::BLACK, mask_of(opts.color)) + (match stack {
        Some(st) => stack_text(st, opts.newline, depth + 1),
        None => Seq::empty(),
    }) + reset_text(opts)
}

/// The members of the object at the cursor start, with these keys.
pub open spec fn start_members(
    w: WalkModel,
    keys: Seq<(Seq<char>, bool)>,
    filter: bool,
    opts: FormatOptions,
) -> (WalkModel, Seq<char>) {
    let c = w.cursor;
    resume(
        with_frames(
            w,
            w.frames.push(
                FrameModel::Object {
                    depth: c.depth,
                    is_array: c.is_array,
                    inspected: c.inspected,
                    keys,
                    filter,
                    index: 0,
                    any_member: false,
                },
            ),
        ),
        opts,
    )
}

/// Whether the facts are those of a function.
pub open spec fn is_function(facts: ValueFacts) -> bool {
    facts matches ValueFacts::Scalar(ScalarValue::Function { .. })
}

/// One step of the walk: the next state and the text appended.
pub open spec fn step(w: WalkModel, e: FormatEvent, opts: FormatOptions) -> (WalkModel, Seq<char>) {
    let c = w.cursor;
    match e {
        FormatEvent::Value(f) => {
            if w.pending == Pending::MemberValue {
                match w.frames.last() {
                    FrameModel::Object {
                        depth,
                        is_array,
                        inspected,
                        keys,
                        filter,
                        index,
                        any_member,
                    } => {
                        if filter && is_function(f) {
                            // A function taken from the prototype is left out.
                            resume(
                                with_frames(
                                    w,
                                    w.frames.drop_last().push(
                                        FrameModel::Object {
                                            depth,
                                            is_array,
                                            inspected,
                                            keys,
                                            filter,
                                            index: (index + 1) as usize,
                                            any_member,
                                        },
                                    ),
                                ),
                                opts,
                            )
                        } else {
                            let (w2, t) = take_value(w, f, (depth + 1) as usize, opts);
                            (
                                w2,
                                member_prefix_text(
                                    keys[index as int].0,
                                    any_member,
                                    is_array,
                                    depth as int,
                                    keys[index as int].1,
                                    opts,
                                ) + t,
                            )
                        }
                    },
                    FrameModel::Promise { .. } => (w, Seq::empty()),
                }
            } else {
                take_value(w, f, c.depth, opts)
            }
        },
        FormatEvent::ErrorParts { name, message, stack } => {
            let (w2, t) = finish(w, opts);
            (
                w2,
                error_text(
                    name@,
                    message@,
                    match stack {
                        Some(s) => Some(s@),
                        None => None,
                    },
                    opts,
                    c.depth,
                ) + t,
            )
        },
        FormatEvent::ClassName(name) => {
            let n = match name {
                Some(s) => Some(s@),
                None => None,
            };
            if n == Some("Date"@) {
                (with_pending(w, Pending::DateText), Seq::empty())
            } else if n == Some("RegExp"@) {
                (with_pending(w, Pending::RegExpParts), Seq::empty())
            } else {
                expand(w, object_class_of(n), opts)
            }
        },
        FormatEvent::DateText(iso) => {
            let (w2, t) = finish(w, opts);
            (w2, masked_color(Color::MAGENTA, mask_of(opts.color)) + iso@ + reset_text(opts) + t)
        },
        FormatEvent::RegExpParts { source, flags } => {
            let (w2, t) = finish(w, opts);
            (
                w2,
                masked_color(Color::RED, mask_of(opts.color)) + seq!['/'] + source@ + seq!['/']
                    + flags@ + reset_text(opts) + t,
            )
        },
        FormatEvent::Inspect(found) => (
            WalkModel {
                visited: w.visited,
                frames: w.frames,
                pending: Pending::Keys,
                cursor: Cursor {
                    depth: c.depth,
                    is_object: c.is_object,
                    engine_array: c.engine_array,
                    is_array: c.is_array,
                    inspected: found,
                },
            },
            seq![
                if c.is_array {
                    '['
                } else {
                    '{'
                },
            ],
        ),
        FormatEvent::Keys(ks) => {
            if !c.is_array && ks.len() == 0 {
                (with_pending(w, Pending::PrototypeKeys), Seq::empty())
            } else {
                start_members(w, key_views(ks@), false, opts)
            }
        },
        FormatEvent::PrototypeKeys(ks) => match ks {
            Some(k) => start_members(w, key_views(k@), true, opts),
            None => start_members(w, Seq::empty(), false, opts),
        },
    }
}

/// Whether a report answers the walk's question, and writing it stays
/// within what the writers accept: a value is not nested deeper than a
/// `usize` counts, and an error with a stack is not deeper than the
/// indentation levels go.
pub open spec fn step_allowed(w: WalkModel, e: FormatEvent) -> bool {
    match e {
        FormatEvent::Value(_) => w.pending == Pending::MemberValue || ((w.pending
            == Pending::Value || w.pending == Pending::PromiseResult) && w.cursor.depth
            < usize::MAX),
        FormatEvent::ErrorParts { stack, .. } => w.pending == Pending::ErrorParts && (stack is Some
            ==> w.cursor.depth < MAX_INDENTATION_LEVEL),
        FormatEvent::ClassName(_) => w.pending == Pending::ClassName,
        FormatEvent::DateText(_) => w.pending == Pending::DateText,
        FormatEvent::RegExpParts { .. } => w.pending == Pending::RegExpParts,
        FormatEvent::Inspect(_) => w.pending == Pending::Inspect,
        FormatEvent::Keys(_) => w.pending == Pending::Keys,
        FormatEvent::PrototypeKeys(_) => w.pending == Pending::PrototypeKeys,
    }
}

/// The frames of a walk are consistent: objects are below the expansion
/// depth with their index within their keys; a member is asked for only
/// of an object that has it; a promise's value only with a promise on top.
pub open spec fn walk_wf(w: WalkModel) -> bool {
    &&& frames_wf(w.frames)
    &&& w.pending == Pending::MemberValue ==> w.frames.len() > 0 && (match w.frames.last() {
        FrameModel::Object { keys, index, .. } => index < keys.len(),
        FrameModel::Promise { .. } => false,
    })
    &&& w.pending == Pending::PromiseResult ==> w.frames.len() > 0
    &&& (w.pending == Pending::Inspect || w.pending == Pending::Keys || w.pending
        == Pending::PrototypeKeys) ==> w.cursor.depth < MAX_EXPANSION_DEPTH
}

/// Objects on the frames are below the expansion depth, with their index
/// within their keys.
pub open spec fn frames_wf(frames: Seq<FrameModel>) -> bool {
    forall|i: int|
        0 <= i < frames.len() ==> match #[trigger] frames[i] {
            FrameModel::Object { depth, keys, index, .. } => depth < MAX_EXPANSION_DEPTH && index
                <= keys.len(),
            FrameModel::Promise { .. } => true,
        }
}

/// Whether `n` is the question that the walk `w` asks.
pub open spec fn next_matches(n: NextRead, w: WalkModel) -> bool {
    match w.pending {
        Pending::Value => n is Value,
        Pending::PromiseResult => n matches NextRead::PromiseResult { level } && level
            == w.frames.len() - 1,
        Pending::MemberValue => n matches NextRead::Member { level, key } && level
            == w.frames.len() - 1 && (match w.frames.last() {
            FrameModel::Object { keys, index, .. } => key@ == keys[index as int].0,
            FrameModel::Promise { .. } => false,
        }),
        Pending::ErrorParts => n is ErrorParts,
        Pending::ClassName => n is ClassName,
        Pending::DateText => n is DateText,
        Pending::RegExpParts => n is RegExpParts,
        Pending::Inspect => n matches NextRead::Inspect { level } && level == w.frames.len(),
        Pending::Keys => n is Keys,
        Pending::PrototypeKeys => n is PrototypeKeys,
        Pending::Done => n is Done,
    }
}

proof fn lemma_finish_shape(w: WalkModel, opts: FormatOptions)
    ensures
        finish(w, opts).0.frames.len() <= w.frames.len(),
        finish(w, opts).0.pending == Pending::Done || finish(w, opts).0.pending
            == Pending::MemberValue,
    decreases w.frames.len(),
{
    if w.frames.len() > 0 {
        lemma_finish_shape(with_frames(w, w.frames.drop_last()), opts);
    }
}

/// Past the expansion depth, an array or exception met for the first time
/// is written as `[Array]` (in cyan, then the reset sequence) and nothing
/// inside it is asked for: the walk opens no frame, and only closes those
/// around it.
pub proof fn law_array_collapsed_past_depth(
    w: WalkModel,
    id: u64,
    engine_array: bool,
    depth: usize,
    opts: FormatOptions,
)
    requires
        !w.visited.contains(id),
        depth >= MAX_EXPANSION_DEPTH,
    ensures
        ({
            let facts = ValueFacts::Object { id, is_object: false, is_error: false, engine_array };
            let after = finish(visited_walk(w, id, false, engine_array, depth), opts);
            &&& take_value(w, facts, depth, opts).1 == masked_color(Color::CYAN, mask_of(opts.color))
                + "[Array]"@ + reset_text(opts) + after.1
            &&& take_value(w, facts, depth, opts).0 == after.0
            &&& after.0.frames.len() <= w.frames.len()
            &&& after.0.pending != Pending::Inspect
        }),
{
    lemma_finish_shape(visited_walk(w, id, false, engine_array, depth), opts);
}

/// Past the expansion depth, an object met for the first time whose class
/// is neither `Date` nor `RegExp` is written as `[Object]` (in cyan, then
/// the reset sequence) once its class name is read, and nothing inside it
/// is asked for.
pub proof fn law_object_collapsed_past_depth(
    w: WalkModel,
    id: u64,
    engine_array: bool,
    depth: usize,
    name: Option<String>,
    opts: FormatOptions,
)
    requires
        !w.visited.contains(id),
        depth >= MAX_EXPANSION_DEPTH,
        !(name matches Some(n) && (n@ == "Date"@ || n@ == "RegExp"@)),
    ensures
        ({
            let facts = ValueFacts::Object { id, is_object: true, is_error: false, engine_array };
            let w1 = with_pending(
                visited_walk(w, id, true, engine_array, depth),
                Pending::ClassName,
            );
            let after = finish(w1, opts);
            &&& take_value(w, facts, depth, opts) == (w1, Seq::<char>::empty())
            &&& step(w1, FormatEvent::ClassName(name), opts).1 == masked_color(
                Color::CYAN,
                mask_of(opts.color),
            ) + "[Object]"@ + reset_text(opts) + after.1
            &&& step(w1, FormatEvent::ClassName(name), opts).0 == after.0
            &&& after.0.frames.len() <= w.frames.len()
            &&& after.0.pending != Pending::Inspect
        }),
{
    let w1 = with_pending(visited_walk(w, id, true, engine_array, depth), Pending::ClassName);
    lemma_finish_shape(w1, opts);
    let n = match name {
        Some(s) => Some(s@),
        None => None,
    };
    assert(n != Some("Date"@));
    assert(n != Some("RegExp"@));
}

/// A typed array or `Buffer` (its class name is one of `Int8Array`,
/// `Uint8Array`, `Uint8ClampedArray`, `Int16Array`, `Uint16Array`,
/// `Int32Array`, `Uint32Array`, `Int64Array`, `Uint64Array`,
/// `Float32Array`, `Float64Array`, `Buffer`) below the expansion depth is
/// written as an array whatever the engine says: its class name and a space,
/// then `[` once the inspection object is looked for, and its members
/// without keys.
pub proof fn law_typed_arrays_written_as_arrays(
    w: WalkModel,
    name: String,
    found: bool,
    opts: FormatOptions,
)
    requires
        w.cursor.depth < MAX_EXPANSION_DEPTH,
        name@ == "Int8Array"@ || name@ == "Uint8Array"@ || name@ == "Uint8ClampedArray"@
            || name@ == "Int16Array"@ || name@ == "Uint16Array"@ || name@ == "Int32Array"@
            || name@ == "Uint32Array"@ || name@ == "Int64Array"@ || name@ == "Uint64Array"@
            || name@ == "Float32Array"@ || name@ == "Float64Array"@ || name@ == "Buffer"@,
    ensures
        ({
            let (w1, t1) = step(w, FormatEvent::ClassName(Some(name)), opts);
            &&& t1 == name@ + seq![' ']
            &&& w1.pending == Pending::Inspect
            &&& w1.cursor.is_array
            &&& w1.cursor.depth == w.cursor.depth
            &&& step(w1, FormatEvent::Inspect(found), opts).1 == seq!['[']
            &&& step(w1, FormatEvent::Inspect(found), opts).0.cursor.is_array
        }),
{
    reveal_strlit("Int8Array");
    reveal_strlit("Uint8Array");
    reveal_strlit("Uint8ClampedArray");
    reveal_strlit("Int16Array");
    reveal_strlit("Uint16Array");
    reveal_strlit("Int32Array");
    reveal_strlit("Uint32Array");
    reveal_strlit("Int64Array");
    reveal_strlit("Uint64Array");
    reveal_strlit("Float32Array");
    reveal_strlit("Float64Array");
    reveal_strlit("Buffer");
    reveal_strlit("Date");
    reveal_strlit("RegExp");
    reveal_strlit("Object");
    let n = name@;
    assert(n.len() > 0);
    assert(n != "Date"@) by {
        if n.len() == 4 {
            assert(n[0] != 'D');
        }
    }
    assert(n != "RegExp"@) by {
        if n.len() == 6 {
            assert(n[0] != 'R');
        }
    }
    assert(n != "Object"@) by {
        if n.len() == 6 {
            assert(n[0] != 'O');
        }
    }
    assert(object_class_of(Some(n)) == Some(n));
    assert(is_typed_array_name(n));
}

/// Members of an array are written without keys: what stands before a
/// member's value does not depend on the key, nor on whether it is numeric.
pub proof fn law_array_members_have_no_keys(
    key: Seq<char>,
    other_key: Seq<char>,
    not_first: bool,
    depth: int,
    numeric_key: bool,
    opts: FormatOptions,
)
    ensures
        member_prefix_text(key, not_first, true, depth, numeric_key, opts) == member_prefix_text(
            other_key,
            not_first,
            true,
            depth,
            !numeric_key,
            opts,
        ),
{
    let t = member_prefix_text(key, not_first, true, depth, numeric_key, opts);
    assert(t =~= member_prefix_text(other_key, not_first, true, depth, !numeric_key, opts));
}

/// The walk over one value written by the console.
pub struct FormatWalk {
    visited: Vec<u64>,
    frames: Vec<Frame>,
    pending: Pending,
    cursor: Cursor,
}

impl View for FormatWalk {
    type V = WalkModel;

    closed spec fn view(&self) -> WalkModel {
        WalkModel {
            visited: self.visited@,
            frames: frame_models(self.frames@),
            pending: self.pending,
            cursor: self.cursor,
        }
    }
}

impl FormatWalk {
    /// A walk that asks for the value to write, at the root.
    pub fn new() -> (r: Self)
        ensures
            r@ == initial_walk(),
            walk_wf(r@),
    {
        let r = FormatWalk {
            visited: Vec::new(),
            frames: Vec::new(),
            pending: Pending::Value,
            cursor: Cursor {
                depth: 0,
                is_object: false,
                engine_array: false,
                is_array: false,
                inspected: false,
            },
        };
        assert(r@.visited =~= Seq::<u64>::empty());
        assert(r@.frames =~= Seq::<FrameModel>::empty());
        r
    }

    /// Whether `event` may be reported now (see `step_allowed`).
    pub fn allows(&self, event: &FormatEvent) -> (r: bool)
        ensures
            r == step_allowed(self@, *event),
    {
        match event {
            FormatEvent::Value(_) => self.pending == Pending::MemberValue || ((self.pending
                == Pending::Value || self.pending == Pending::PromiseResult) && self.cursor.depth
                < usize::MAX),
            FormatEvent::ErrorParts { stack, .. } => self.pending == Pending::ErrorParts && (
            stack.is_none() || self.cursor.depth < MAX_INDENTATION_LEVEL),
            FormatEvent::ClassName(_) => self.pending == Pending::ClassName,
            FormatEvent::DateText(_) => self.pending == Pending::DateText,
            FormatEvent::RegExpParts { .. } => self.pending == Pending::RegExpParts,
            FormatEvent::Inspect(_) => self.pending == Pending::Inspect,
            FormatEvent::Keys(_) => self.pending == Pending::Keys,
            FormatEvent::PrototypeKeys(_) => self.pending == Pending::PrototypeKeys,
        }
    }

    /// The walk's question to the caller.
    pub fn next_read(&self) -> (r: NextRead)
        requires
            walk_wf(self@),
        ensures
            next_matches(r, self@),
    {
        let n = self.frames.len();
        match self.pending {
            Pending::Value => NextRead::Value,
            Pending::PromiseResult => NextRead::PromiseResult { level: n - 1 },
            Pending::MemberValue => {
                proof {
                    lemma_frame_models_drop_last(self.frames@);
                }
                match &self.frames[n - 1] {
                    Frame::Object { keys, index, .. } => {
                        let key = keys[*index].name.clone();
                        NextRead::Member { level: n - 1, key }
                    },
                    Frame::Promise { .. } => NextRead::Done,
                }
            },
            Pending::ErrorParts => NextRead::ErrorParts,
            Pending::ClassName => NextRead::ClassName,
            Pending::DateText => NextRead::DateText,
            Pending::RegExpParts => NextRead::RegExpParts,
            Pending::Inspect => NextRead::Inspect { level: n },
            Pending::Keys => NextRead::Keys,
            Pending::PrototypeKeys => NextRead::PrototypeKeys,
            Pending::Done => NextRead::Done,
        }
    }

    fn contains_visited(&self, id: u64) -> (r: bool)
        ensures
            r == self@.visited.contains(id),
    {
        let mut i: usize = 0;
        while i < self.visited.len()
            invariant
                i <= self.visited.len(),
                forall|j: int| 0 <= j < i ==> self.visited@[j] != id,
            decreases self.visited.len() - i,
        {
            if self.visited[i] == id {
                assert(self@.visited[i as int] == id);
                return true;
            }
            i += 1;
        }
        false
    }

    fn end_object(
        result: &mut String,
        is_array: bool,
        inspected: bool,
        any_member: bool,
        depth: usize,
        options: &FormatOptions,
    )
        ensures
            final(result)@ == old(result)@ + object_end_text(
                is_array,
                inspected,
                any_member,
                depth,
                *options,
            ),
    {
        write_object_close(result, any_member, is_array, depth, options.newline);
        if !inspected {
            Color::reset(result, bitmask(options.color));
        }
    }

    /// Writes what follows a value that is written (see `finish`).
    #[verifier::spinoff_prover]
    #[verifier::rlimit(40)]
    fn finish(&mut self, result: &mut String, options: &FormatOptions)
        requires
            frames_wf(old(self)@.frames),
        ensures
            final(self)@ == finish(old(self)@, *options).0,
            final(result)@ == old(result)@ + finish(old(self)@, *options).1,
            walk_wf(final(self)@),
        decreases old(self).frames@.len(),
    {
        if self.frames.len() == 0 {
            self.pending = Pending::Done;
            return ;
        }
        let ghost w = self@;
        let ghost start = result@;
        proof {
            lemma_frame_models_drop_last(self.frames@);
        }
        let top = self.frames.pop().unwrap();
        assert(self@ == with_frames(w, w.frames.drop_last()));
        assert(frames_wf(self@.frames)) by {
            assert forall|i: int| 0 <= i < self@.frames.len() implies match #[trigger] self@.frames[i] {
                FrameModel::Object { depth, keys, index, .. } => depth < MAX_EXPANSION_DEPTH && index
                    <= keys.len(),
                FrameModel::Promise { .. } => true,
            } by {
                assert(self@.frames[i] == w.frames[i]);
            }
        }
        assert(frame_model(top) == w.frames.last());
        match top {
            Frame::Promise { depth, status } => {
                write_promise_close(result, status, options, depth);
                self.finish(result, options);
            },
            Frame::Object { depth, is_array, inspected, keys, filter, index, any_member } => {
                if index > 99 {
                    write_more_items(result, keys.len(), index);
                    Self::end_object(result, is_array, inspected, true, depth, options);
                    self.finish(result, options);
                    assert(result@ == start + ("... "@ + decimal_text(keys@.len() - index)
                        + " more items"@ + object_end_text(is_array, inspected, true, depth, *options)
                        + finish(with_frames(w, w.frames.drop_last()), *options).1));
                } else if index + 1 < keys.len() {
                    let ghost popped = self.frames@;
                    let f = Frame::Object {
                        depth,
                        is_array,
                        inspected,
                        keys,
                        filter,
                        index: index + 1,
                        any_member: true,
                    };
                    self.frames.push(f);
                    self.pending = Pending::MemberValue;
                    proof {
                        lemma_frame_models_push(popped, f);
                    }
                } else {
                    Self::end_object(result, is_array, inspected, true, depth, options);
                    self.finish(result, options);
                }
            },
        }
    }

    /// Expands the object at the cursor (see `expand`).
    fn expand(&mut self, result: &mut String, class: Option<String>, options: &FormatOptions)
        requires
            frames_wf(old(self)@.frames),
        ensures
            final(self)@ == expand(
                old(self)@,
                match class {
                    Some(n) => Some(n@),
                    None => None,
                },
                *options,
            ).0,
            final(result)@ == old(result)@ + expand(
                old(self)@,
                match class {
                    Some(n) => Some(n@),
                    None => None,
                },
                *options,
            ).1,
            walk_wf(final(self)@),
    {
        let c = self.cursor;
        if c.depth < MAX_EXPANSION_DEPTH {
            let typed = match &class {
                Some(n) => write_class_name(result, n.as_str()),
                None => false,
            };
            self.cursor = Cursor {
                depth: c.depth,
                is_object: c.is_object,
                engine_array: c.engine_array,
                is_array: typed || c.engine_array,
                inspected: c.inspected,
            };
            self.pending = Pending::Inspect;
        } else {
            write_collapsed_object(result, c.is_object, bitmask(options.color));
            self.finish(result, options);
        }
    }

    /// Takes a reported value at `depth` (see `take_value`).
    #[verifier::spinoff_prover]
    fn take_value(
        &mut self,
        result: &mut String,
        facts: ValueFacts,
        depth: usize,
        options: &FormatOptions,
    )
        requires
            frames_wf(old(self)@.frames),
            depth < usize::MAX,
        ensures
            final(self)@ == take_value(old(self)@, facts, depth, *options).0,
            final(result)@ == old(result)@ + take_value(old(self)@, facts, depth, *options).1,
            walk_wf(final(self)@),
    {
        let ghost w = self@;
        let ghost start = result@;
        match facts {
            ValueFacts::Scalar(v) => {
                format_scalar(result, v, options, depth);
                self.finish(result, options);
            },
            ValueFacts::Promise(s) => {
                write_promise_open(result, s, options, depth);
                if s == PromiseStatus::Pending {
                    write_promise_close(result, s, options, depth);
                    self.finish(result, options);
                } else {
                    let ghost old_frames = self.frames@;
                    let f = Frame::Promise { depth, status: s };
                    self.frames.push(f);
                    self.pending = Pending::PromiseResult;
                    self.cursor = Cursor {
                        depth: depth + 1,
                        is_object: false,
                        engine_array: false,
                        is_array: false,
                        inspected: false,
                    };
                    proof {
                        lemma_frame_models_push(old_frames, f);
                        assert(frames_wf(self@.frames)) by {
                            assert forall|i: int| 0 <= i < self@.frames.len() implies match #[trigger] self@.frames[i] {
                                FrameModel::Object { depth, keys, index, .. } => depth < MAX_EXPANSION_DEPTH && index
                                    <= keys.len(),
                                FrameModel::Promise { .. } => true,
                            } by {
                                if i < w.frames.len() {
                                    assert(self@.frames[i] == w.frames[i]);
                                }
                            }
                        }
                    }
                }
            },
            ValueFacts::Object { id, is_object, is_error, engine_array } => {
                if self.contains_visited(id) {
                    write_circular(result, bitmask(options.color));
                    self.finish(result, options);
                } else {
                    self.visited.push(id);
                    self.cursor = Cursor {
                        depth,
                        is_object,
                        engine_array,
                        is_array: false,
                        inspected: false,
                    };
                    if is_error {
                        self.pending = Pending::ErrorParts;
                    } else if is_object {
                        self.pending = Pending::ClassName;
                    } else {
                        self.expand(result, None, options);
                    }
                }
            },
        }
    }

    /// Takes a value reported for the current member of the object on top.
    #[verifier::spinoff_prover]
    #[verifier::rlimit(40)]
    fn take_member(&mut self, result: &mut String, facts: ValueFacts, options: &FormatOptions)
        requires
            walk_wf(old(self)@),
            old(self)@.pending == Pending::MemberValue,
        ensures
            final(self)@ == step(old(self)@, FormatEvent::Value(facts), *options).0,
            final(result)@ == old(result)@ + step(old(self)@, FormatEvent::Value(facts), *options).1,
            walk_wf(final(self)@),
    {
        let ghost w = self@;
        proof {
            lemma_frame_models_drop_last(self.frames@);
        }
        let top = self.frames.pop().unwrap();
        let ghost popped = self.frames@;
        assert(frame_model(top) == w.frames.last());
        match top {
            Frame::Object { depth, is_array, inspected, keys, filter, index, any_member } => {
                assert(key_views(keys@).len() == keys@.len());
                let n = keys.len();
                assert(index < n);
                let is_fn = match &facts {
                    ValueFacts::Scalar(ScalarValue::Function { .. }) => true,
                    _ => false,
                };
                if filter && is_fn {
                    let f = Frame::Object {
                        depth,
                        is_array,
                        inspected,
                        keys,
                        filter,
                        index: index + 1,
                        any_member,
                    };
                    self.frames.push(f);
                    proof {
                        lemma_frame_models_push(popped, f);
                        assert(frames_wf(self@.frames)) by {
                            assert forall|i: int| 0 <= i < self@.frames.len() implies match #[trigger] self@.frames[i] {
                                FrameModel::Object { depth, keys, index, .. } => depth < MAX_EXPANSION_DEPTH && index
                                    <= keys.len(),
                                FrameModel::Promise { .. } => true,
                            } by {
                                if i < popped.len() {
                                    assert(self@.frames[i] == w.frames[i]);
                                }
                            }
                        }
                    }
                    self.resume(result, options);
                } else {
                    write_member_prefix(
                        result,
                        keys[index].name.as_str(),
                        any_member,
                        is_array,
                        depth,
                        keys[index].numeric,
                        options,
                    );
                    let f = Frame::Object {
                        depth,
                        is_array,
                        inspected,
                        keys,
                        filter,
                        index,
                        any_member,
                    };
                    self.frames.push(f);
                    proof {
                        lemma_frame_models_push(popped, f);
                        assert(self@.frames =~= w.frames);
                        assert(self@ == w);
                    }
                    self.take_value(result, facts, depth + 1, options);
                }
            },
            Frame::Promise { .. } => {
                self.frames.push(top);
            },
        }
    }

    /// Starts the members of the object at the cursor (see `start_members`).
    fn start_members(
        &mut self,
        result: &mut String,
        keys: Vec<MemberKey>,
        filter: bool,
        options: &FormatOptions,
    )
        requires
            frames_wf(old(self)@.frames),
            old(self)@.cursor.depth < MAX_EXPANSION_DEPTH,
        ensures
            final(self)@ == start_members(old(self)@, key_views(keys@), filter, *options).0,
            final(result)@ == old(result)@ + start_members(
                old(self)@,
                key_views(keys@),
                filter,
                *options,
            ).1,
            walk_wf(final(self)@),
    {
        let ghost w = self@;
        let ghost old_frames = self.frames@;
        let c = self.cursor;
        let f = Frame::Object {
            depth: c.depth,
            is_array: c.is_array,
            inspected: c.inspected,
            keys,
            filter,
            index: 0,
            any_member: false,
        };
        self.frames.push(f);
        proof {
            lemma_frame_models_push(old_frames, f);
            assert(frames_wf(self@.frames)) by {
                assert forall|i: int| 0 <= i < self@.frames.len() implies match #[trigger] self@.frames[i] {
                    FrameModel::Object { depth, keys, index, .. } => depth < MAX_EXPANSION_DEPTH && index
                        <= keys.len(),
                    FrameModel::Promise { .. } => true,
                } by {
                    if i < old_frames.len() {
                        assert(self@.frames[i] == w.frames[i]);
                    }
                }
            }
        }
        self.resume(result, options);
    }

    /// Goes on with the object on top (see `resume`).
    fn resume(&mut self, result: &mut String, options: &FormatOptions)
        requires
            frames_wf(old(self)@.frames),
            old(self)@.frames.len() > 0,
            old(self)@.frames.last() is Object,
        ensures
            final(self)@ == resume(old(self)@, *options).0,
            final(result)@ == old(result)@ + resume(old(self)@, *options).1,
            walk_wf(final(self)@),
    {
        let ghost w = self@;
        proof {
            lemma_frame_models_drop_last(self.frames@);
        }
        let top = self.frames.pop().unwrap();
        let ghost popped = self.frames@;
        match top {
            Frame::Object { depth, is_array, inspected, keys, filter, index, any_member } => {
                if index < keys.len() {
                    let f = Frame::Object {
                        depth,
                        is_array,
                        inspected,
                        keys,
                        filter,
                        index,
                        any_member,
                    };
                    self.frames.push(f);
                    self.pending = Pending::MemberValue;
                    proof {
                        lemma_frame_models_push(popped, f);
                        assert(self@.frames =~= w.frames);
                    }
                } else {
                    Self::end_object(result, is_array, inspected, any_member, depth, options);
                    self.finish(result, options);
                }
            },
            Frame::Promise { .. } => {
                self.frames.push(top);
            },
        }
    }
}

/// One step of the walk: takes the caller's report `event`, appends what it
/// decides to write, moves to the next state (see `step`), and returns the
/// next question.
pub fn format_step(
    walk: &mut FormatWalk,
    result: &mut String,
    event: FormatEvent,
    options: &FormatOptions,
) -> (next: NextRead)
    requires
        walk_wf(old(walk)@),
        step_allowed(old(walk)@, event),
    ensures
        final(walk)@ == step(old(walk)@, event, *options).0,
        final(result)@ == old(result)@ + step(old(walk)@, event, *options).1,
        walk_wf(final(walk)@),
        next_matches(next, final(walk)@),
{
    let ghost w = walk@;
    let c = walk.cursor;
    match event {
        FormatEvent::Value(facts) => {
            if walk.pending == Pending::MemberValue {
                walk.take_member(result, facts, options);
            } else {
                walk.take_value(result, facts, c.depth, options);
            }
        },
        FormatEvent::ErrorParts { name, message, stack } => {
            write_error(result, name.as_str(), message.as_str(), stack, options, c.depth);
            walk.finish(result, options);
        },
        FormatEvent::ClassName(name) => {
            proof {
                reveal_strlit("Date");
                reveal_strlit("RegExp");
            }
            match classify_object(name) {
                ObjectClass::Date => {
                    walk.pending = Pending::DateText;
                },
                ObjectClass::RegExp => {
                    walk.pending = Pending::RegExpParts;
                },
                ObjectClass::Plain => {
                    walk.expand(result, None, options);
                },
                ObjectClass::Named(class) => {
                    walk.expand(result, Some(class), options);
                },
            }
        },
        FormatEvent::DateText(iso) => {
            write_date(result, iso.as_str(), bitmask(options.color));
            walk.finish(result, options);
        },
        FormatEvent::RegExpParts { source, flags } => {
            write_regexp(result, source.as_str(), flags.as_str(), bitmask(options.color));
            walk.finish(result, options);
        },
        FormatEvent::Inspect(found) => {
            write_object_open(result, c.is_array);
            walk.cursor = Cursor {
                depth: c.depth,
                is_object: c.is_object,
                engine_array: c.engine_array,
                is_array: c.is_array,
                inspected: found,
            };
            walk.pending = Pending::Keys;
        },
        FormatEvent::Keys(keys) => {
            if !c.is_array && keys.len() == 0 {
                walk.pending = Pending::PrototypeKeys;
            } else {
                walk.start_members(result, keys, false, options);
            }
        },
        FormatEvent::PrototypeKeys(keys) => {
            match keys {
                Some(k) => walk.start_members(result, k, true, options),
                None => {
                    let empty: Vec<MemberKey> = Vec::new();
                    proof {
                        assert(key_views(empty@) =~= Seq::<(Seq<char>, bool)>::empty());
                    }
                    walk.start_members(result, empty, false, options);
                },
            }
        },
    }
    walk.next_read()
}

} // verus!
