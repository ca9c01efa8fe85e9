//! The language of the keyboard input source, as the system reports it.
use vstd::prelude::*;
use vstd::string::*;

verus! {

/// What the frontend is told of the input source.
#[derive(Clone, Debug, PartialEq, Eq)]
pub struct InputEvent<S = String> {
    /// The primary language, such as `ko` or `zh-Hans`.
    pub lang: S,
    /// Whether this is how things stood at first, rather than a change.
    pub initial: bool,
}

impl DeepView for InputEvent {
    type V = InputEvent<Seq<char>>;

    open spec fn deep_view(&self) -> InputEvent<Seq<char>> {
        InputEvent { lang: self.lang@, initial: self.initial }
    }
}

/// The primary language of an input source, or English where it has none.
pub open spec fn language_of(first: Option<Seq<char>>) -> Seq<char> {
    match first {
        Some(l) => l,
        None => "en"@,
    }
}

/// The primary language of the current input source, given the first language
/// that the system names for it.
pub fn current_language(first: Option<String>) -> (r: String)
    ensures
        r@ == language_of(first.deep_view()),
{
    match first {
        Some(l) => l,
        None => "en".to_owned(),
    }
}

/// What the frontend is told, where the watch is started or not.
pub open spec fn told_of(started: bool, initial: bool, first: Option<Seq<char>>) -> Option<
    InputEvent<Seq<char>>,
> {
    if started {
        Some(InputEvent { lang: language_of(first), initial })
    } else {
        None
    }
}

/// Watching the input source, which is started once.
pub struct InputWatch {
    started: bool,
}

impl View for InputWatch {
    type V = bool;

    closed spec fn view(&self) -> bool {
        self.started
    }
}

impl InputWatch {
    /// A watch that is not started.
    pub fn new() -> (w: InputWatch)
        ensures
            !w@,
    {
        InputWatch { started: false }
    }

    /// Starts the watch; the answer is whether it was not started before.
    pub fn start(&mut self) -> (r: bool)
        ensures
            r == !old(self)@,
            final(self)@,
    {
        let first = !self.started;
        self.started = true;
        first
    }

    /// What to tell the frontend; nothing before the watch is started.
    pub fn emit(&self, initial: bool, first: Option<String>) -> (r: Option<InputEvent>)
        ensures
            r.deep_view() == told_of(self@, initial, first.deep_view()),
    {
        if self.started {
            Some(InputEvent { lang: current_language(first), initial })
        } else {
            None
        }
    }
}

/// The language that the frontend is told is the one that the system names
/// first, and English only where it names none; it is told whether that is how
/// things stood at first, and nothing before the watch is started.
pub proof fn the_first_language_is_told(initial: bool, first: Seq<char>, any: Option<Seq<char>>)
    ensures
        language_of(Some(first)) == first,
        language_of(None) == "en"@,
        told_of(true, initial, Some(first)) == Some(InputEvent { lang: first, initial }),
        told_of(true, initial, None) == Some(InputEvent { lang: "en"@, initial }),
        told_of(false, initial, any) is None,
{
}

} // verus!
