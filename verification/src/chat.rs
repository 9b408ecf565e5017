//! The state machine of the terminal chat client: a history of messages,
//! the prompt being typed, and whether the user asked to quit.
use vstd::prelude::*;
use crate::text::{pop_char, push_char};

verus! {

/// A key press, as the client distinguishes them.
pub enum Key {
    Esc,
    Backspace,
    Enter,
    Char(char),
    /// Any other key; it changes nothing.
    Other,
}

/// The text shown in the history while a question is being answered.
pub open spec fn loading_message() -> Seq<char> {
    seq!['L', 'o', 'a', 'd', 'i', 'n', 'g', ' ', 'q', 'u', 'e', 's', 't', 'i', 'o', 'n']
}

/// Rows of the chat area that the border and the prompt take.
pub const PROMPT_OFFSET: i64 = 5;

/// The chat client's state.
pub struct App {
    /// Every message shown so far, oldest first.
    pub history: Vec<String>,
    /// What the user is typing.
    pub prompt: String,
    /// Set once the user asked to quit.
    pub exit: bool,
}

impl Default for App {
    fn default() -> (app: App)
        ensures
            app.history@.len() == 0,
            app.prompt@.len() == 0,
            !app.exit,
    {
        App { history: Vec::new(), prompt: String::new(), exit: false }
    }
}

/// The views of a history.
pub open spec fn history_view(h: Seq<String>) -> Seq<Seq<char>> {
    h.map_values(|s: String| s@)
}

/// The part of the client's state that key presses change: the history,
/// the prompt and the exit flag, as plain values.
pub struct ChatState {
    pub history: Seq<Seq<char>>,
    pub prompt: Seq<char>,
    pub exit: bool,
}

/// The state of `app` as plain values.
pub open spec fn chat_state(app: App) -> ChatState {
    ChatState { history: history_view(app.history@), prompt: app.prompt@, exit: app.exit }
}

/// The state after one key press, as `App::handle_key_event` makes it.
pub open spec fn key_step(s: ChatState, key: Key) -> ChatState {
    match key {
        Key::Esc => ChatState { exit: true, ..s },
        Key::Backspace => ChatState {
            prompt: if s.prompt.len() == 0 {
                s.prompt
            } else {
                s.prompt.drop_last()
            },
            ..s
        },
        Key::Enter => ChatState {
            history: s.history.push(s.prompt).push(loading_message()),
            prompt: Seq::empty(),
            ..s
        },
        Key::Char(c) => ChatState { prompt: s.prompt.push(c), ..s },
        Key::Other => s,
    }
}

/// The state after an answer arrives, as `App::receive_answer` makes it.
pub open spec fn answer_step(s: ChatState, answer: Seq<char>) -> ChatState {
    ChatState { history: s.history.push(s.prompt).push(answer), ..s }
}

/// What the client reacts to: a key press, or the answer to a question.
pub enum ChatEvent {
    Press(Key),
    Answer(Seq<char>),
}

/// The state after one event.
pub open spec fn event_step(s: ChatState, event: ChatEvent) -> ChatState {
    match event {
        ChatEvent::Press(key) => key_step(s, key),
        ChatEvent::Answer(answer) => answer_step(s, answer),
    }
}

/// The state after the events of `events`, in order.
pub open spec fn event_run(s: ChatState, events: Seq<ChatEvent>) -> ChatState
    decreases events.len(),
{
    if events.len() == 0 {
        s
    } else {
        event_step(event_run(s, events.drop_last()), events.last())
    }
}

impl App {
    /// Marks the client as finished.
    pub fn exit(&mut self)
        ensures
            final(self).exit,
            final(self).history == old(self).history,
            final(self).prompt == old(self).prompt,
    {
        self.exit = true;
    }

    /// Applies one key press. `Esc` quits, `Backspace` deletes the last
    /// character of the prompt, a character is appended to it, and `Enter`
    /// moves the prompt into the history followed by the loading message,
    /// clears the prompt and returns the question to send: the prompt as it
    /// is after clearing, so the empty text. The answer then goes to
    /// `receive_answer`. Other keys change nothing.
    pub fn handle_key_event(&mut self, key: Key) -> (question: Option<String>)
        ensures
            match key {
                Key::Esc => {
                    &&& final(self).exit
                    &&& final(self).history == old(self).history
                    &&& final(self).prompt == old(self).prompt
                    &&& question is None
                },
                Key::Backspace => {
                    &&& final(self).exit == old(self).exit
                    &&& final(self).history == old(self).history
                    &&& final(self).prompt@ == if old(self).prompt@.len() == 0 {
                        old(self).prompt@
                    } else {
                        old(self).prompt@.drop_last()
                    }
                    &&& question is None
                },
                Key::Enter => {
                    &&& final(self).exit == old(self).exit
                    &&& history_view(final(self).history@) == history_view(
                        old(self).history@,
                    ).push(old(self).prompt@).push(loading_message())
                    &&& final(self).prompt@.len() == 0
                    &&& question matches Some(q) && q@.len() == 0
                },
                Key::Char(c) => {
                    &&& final(self).exit == old(self).exit
                    &&& final(self).history == old(self).history
                    &&& final(self).prompt@ == old(self).prompt@.push(c)
                    &&& question is None
                },
                Key::Other => {
                    &&& final(self).exit == old(self).exit
                    &&& final(self).history == old(self).history
                    &&& final(self).prompt == old(self).prompt
                    &&& question is None
                },
            },
            chat_state(*final(self)) == key_step(chat_state(*old(self)), key),
    {
        match key {
            Key::Esc => {
                self.exit();
                None
            },
            Key::Backspace => {
                pop_char(&mut self.prompt);
                None
            },
            Key::Enter => {
                let ghost before = history_view(self.history@);
                let typed: String = self.prompt.clone();
                self.history.push(typed);
                let loading: String = String::from_str("Loading question");
                proof {
                    reveal_strlit("Loading question");
                    assert(loading@ =~= loading_message());
                }
                self.history.push(loading);
                assert(history_view(self.history@) =~= before.push(typed@).push(loading@));
                self.prompt = String::new();
                Some(self.prompt.clone())
            },
            Key::Char(c) => {
                push_char(&mut self.prompt, c);
                None
            },
            Key::Other => None,
        }
    }

    /// Records the answer to the question sent after `Enter`: the current
    /// prompt, then the answer, go into the history.
    pub fn receive_answer(&mut self, answer: String)
        ensures
            final(self).exit == old(self).exit,
            final(self).prompt == old(self).prompt,
            history_view(final(self).history@) == history_view(old(self).history@).push(
                old(self).prompt@,
            ).push(answer@),
            chat_state(*final(self)) == answer_step(chat_state(*old(self)), answer@),
    {
        let ghost before = history_view(self.history@);
        let typed: String = self.prompt.clone();
        self.history.push(typed);
        self.history.push(answer);
        assert(history_view(self.history@) =~= before.push(typed@).push(answer@));
    }
}

/// Typing a character and then deleting it restores the prompt: the
/// prompt after `Key::Char(c)` then `Key::Backspace` (as
/// `handle_key_event` states them) is the prompt before.
pub proof fn law_backspace_undoes_char(prompt: Seq<char>, c: char)
    ensures
        ({
            let typed = prompt.push(c);
            (if typed.len() == 0 {
                typed
            } else {
                typed.drop_last()
            }) == prompt
        }),
{
    assert(prompt.push(c).drop_last() =~= prompt);
}

/// Over any sequence of key presses and answers the history is only
/// appended to and a client that was told to quit stays so: the history
/// before is a prefix of the history after, and `exit` is never reset.
pub proof fn law_events_only_append(s: ChatState, events: Seq<ChatEvent>)
    ensures
        s.history.is_prefix_of(event_run(s, events).history),
        s.exit ==> event_run(s, events).exit,
    decreases events.len(),
{
    if events.len() > 0 {
        law_events_only_append(s, events.drop_last());
        let mid = event_run(s, events.drop_last());
        let next = event_step(mid, events.last());
        let k: int = mid.history.len() as int;
        assert(next.history.subrange(0, k) =~= mid.history);
        assert(next.history.subrange(0, s.history.len() as int) =~= s.history) by {
            assert(mid.history.subrange(0, s.history.len() as int) =~= s.history);
            assert forall|j: int| 0 <= j < s.history.len() implies next.history[j] == s.history[j] by {
                assert(next.history[j] == next.history.subrange(0, k)[j]);
                assert(mid.history[j] == mid.history.subrange(0, s.history.len() as int)[j]);
            }
        }
    }
}

/// The index of the first history message shown in a chat area of
/// `height` rows: the last `height - PROMPT_OFFSET` messages are shown.
pub open spec fn spec_visible_start(history_len: int, height: int) -> int {
    if history_len - height + PROMPT_OFFSET > 0 {
        history_len - height + PROMPT_OFFSET
    } else {
        0
    }
}

/// The chat area shows as many of the newest messages as fit: when the
/// history and the five rows of border and prompt fit in `height` rows,
/// everything is shown from the first message; otherwise exactly the last
/// `height - 5` messages are shown. Each new message moves the start by
/// one once the area is full.
pub proof fn law_visible_start_shows_newest(history_len: int, height: int)
    requires
        0 <= history_len,
        0 <= height,
    ensures
        history_len + 5 <= height ==> spec_visible_start(history_len, height) == 0,
        history_len + 5 > height ==> history_len - spec_visible_start(history_len, height)
            == height - 5,
        history_len + 5 >= height ==> spec_visible_start(history_len + 1, height)
            == spec_visible_start(history_len, height) + 1,
{
}

/// Where the shown part of a history of `history_len` messages starts in
/// an area of `height` rows. The area must leave room for the prompt, or
/// the history must fit, since the shown range would otherwise start past
/// its end.
pub fn visible_start(history_len: usize, height: u16) -> (start: usize)
    requires
        history_len <= i32::MAX,
        history_len - height + PROMPT_OFFSET <= i32::MAX,
        spec_visible_start(history_len as int, height as int) <= history_len,
    ensures
        start == spec_visible_start(history_len as int, height as int),
        start <= history_len,
{
    let length: i64 = history_len as i64;
    let h: i64 = height as i64;
    let first: i64 = length - h + PROMPT_OFFSET;
    if first > 0 {
        first as usize
    } else {
        0
    }
}

} // verus!
