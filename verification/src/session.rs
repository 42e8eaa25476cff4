//! The selection loop: one interactive session over a result set, as an
//! explicit state machine. The host feeds one input event at a time into
//! `handle_event` and performs the effect it returns; every transition is
//! synchronous, so the shown results never lag behind the cursor.

use vstd::prelude::*;
use vstd::string::StringExecFns;
use crate::codec::is_scalar_value;
use crate::index::{search, Index};
use crate::query::{query_pattern, regex_compiles, search_results, QueryError};
use crate::table::{table_view, Assoc};

verus! {

/// Where the session stands: browsing the results, naming an alias for a
/// chosen character, or showing a notice that must be acknowledged.
pub enum Mode {
    Browsing,
    SavePrompt { pending: char, alias: String },
    ErrorNotice { message: String, resume: Resume },
}

/// Where an acknowledged notice returns to. A notice over a save prompt keeps
/// the prompt's character and alias text: the prompt is not lost.
pub enum Resume {
    ToBrowsing,
    ToSavePrompt { pending: char, alias: String },
}

/// One input event of the session.
pub enum Event {
    Up,
    Down,
    QueryEdited { text: String },
    Select,
    AliasEdited { text: String },
    SaveSubmit,
    SaveCancel,
    AckNotice,
    Quit,
}

/// What the host must do after a step: go on reading input, save under the
/// alias and end the session, or end it without saving.
pub enum Effect {
    Continue,
    SaveAndExit { alias: String, value: char },
    QuitWithoutSaving,
}

/// One selection session: the current result set, the cursor into it, and
/// the mode.
pub struct Session {
    pub results: Vec<Assoc>,
    pub cursor: usize,
    pub mode: Mode,
}

impl Session {
    /// The cursor stays inside the result set, and rests at zero when the
    /// set is empty.
    pub open spec fn wf(&self) -> bool {
        if self.results@.len() == 0 {
            self.cursor == 0
        } else {
            self.cursor < self.results@.len()
        }
    }

    /// Opens a session browsing the given results, cursor on the first.
    pub fn new(results: Vec<Assoc>) -> (s: Session)
        ensures
            s.wf(),
            s.results@ == results@,
            s.cursor == 0,
            s.mode is Browsing,
    {
        Session { results, cursor: 0, mode: Mode::Browsing }
    }
}

/// The session did not change.
pub open spec fn unchanged(pre: Session, post: Session) -> bool {
    &&& post.results@ == pre.results@
    &&& post.cursor == pre.cursor
    &&& post.mode == pre.mode
}

/// The result set and the cursor did not change.
pub open spec fn list_unchanged(pre: Session, post: Session) -> bool {
    &&& post.results@ == pre.results@
    &&& post.cursor == pre.cursor
}

/// How one event steps the session, over the entries of the index it
/// searches.
pub open spec fn step(
    pre: Session,
    entries: Seq<(Seq<u8>, u64)>,
    ev: Event,
    post: Session,
    eff: Effect,
) -> bool {
    match ev {
        Event::Up => {
            &&& eff is Continue
            &&& list_moved(pre, post, if pre.mode is Browsing && pre.cursor > 0 {
                pre.cursor - 1
            } else {
                pre.cursor as int
            })
        },
        Event::Down => {
            &&& eff is Continue
            &&& list_moved(pre, post, if pre.mode is Browsing && pre.cursor + 1
                < pre.results@.len() {
                pre.cursor + 1
            } else {
                pre.cursor as int
            })
        },
        Event::QueryEdited { text } => {
            &&& eff is Continue
            &&& if pre.mode is Browsing {
                if regex_compiles(query_pattern(text@)) {
                    // the new results replace the old, the cursor returns to
                    // the top
                    &&& table_view(post.results@) == search_results(
                        entries,
                        query_pattern(text@),
                    )
                    &&& post.cursor == 0
                    &&& post.mode is Browsing
                } else {
                    // the query does not compile: a notice, nothing else
                    // moves
                    &&& list_unchanged(pre, post)
                    &&& post.mode matches Mode::ErrorNotice { resume: Resume::ToBrowsing, .. }
                }
            } else {
                unchanged(pre, post)
            }
        },
        Event::Select => {
            &&& eff is Continue
            &&& if pre.mode is Browsing && pre.cursor < pre.results@.len() {
                {
                    let code = pre.results@[pre.cursor as int].code;
                    &&& list_unchanged(pre, post)
                    &&& if is_scalar_value(code) {
                        post.mode matches Mode::SavePrompt { pending, alias } && pending as u32
                            == code && alias@ =~= Seq::<char>::empty()
                    } else {
                        // the entry does not decode to a character: a notice
                        post.mode matches Mode::ErrorNotice { resume: Resume::ToBrowsing, .. }
                    }
                }
            } else {
                unchanged(pre, post)
            }
        },
        Event::AliasEdited { text } => {
            &&& eff is Continue
            &&& list_unchanged(pre, post)
            &&& match pre.mode {
                Mode::SavePrompt { pending: p0, .. } => (post.mode matches Mode::SavePrompt {
                    pending,
                    alias,
                } && pending == p0 && alias == text),
                _ => post.mode == pre.mode,
            }
        },
        Event::SaveSubmit => {
            match pre.mode {
                Mode::SavePrompt { pending, alias } => {
                    if alias@.len() == 0 {
                        // an empty alias is refused; the prompt is kept
                        // behind the notice
                        &&& eff is Continue
                        &&& list_unchanged(pre, post)
                        &&& (post.mode matches Mode::ErrorNotice {
                            resume: Resume::ToSavePrompt { pending: p2, alias: a2 },
                            ..
                        } && p2 == pending && a2 == alias)
                    } else {
                        // the host saves and ends the session
                        &&& (eff matches Effect::SaveAndExit { alias: a, value } && a == alias
                            && value == pending)
                        &&& unchanged(pre, post)
                    }
                },
                _ => eff is Continue && unchanged(pre, post),
            }
        },
        Event::SaveCancel => {
            &&& eff is Continue
            &&& list_unchanged(pre, post)
            &&& if pre.mode matches Mode::SavePrompt { .. } {
                // back to browsing, the previous results and cursor intact
                post.mode is Browsing
            } else {
                post.mode == pre.mode
            }
        },
        Event::AckNotice => {
            &&& eff is Continue
            &&& list_unchanged(pre, post)
            &&& match pre.mode {
                Mode::ErrorNotice { resume: Resume::ToBrowsing, .. } => post.mode is Browsing,
                Mode::ErrorNotice {
                    resume: Resume::ToSavePrompt { pending, alias },
                    ..
                } => post.mode matches Mode::SavePrompt { pending: p2, alias: a2 } && p2 == pending
                    && a2 == alias,
                _ => post.mode == pre.mode,
            }
        },
        Event::Quit => {
            if pre.mode is Browsing {
                eff is QuitWithoutSaving && unchanged(pre, post)
            } else {
                eff is Continue && unchanged(pre, post)
            }
        },
    }
}

/// The cursor moved to `to`; nothing else did.
pub open spec fn list_moved(pre: Session, post: Session, to: int) -> bool {
    &&& post.results@ == pre.results@
    &&& post.cursor == to
    &&& post.mode == pre.mode
}

/// Steps the session by one input event against the index it searches, and
/// says what the host must do next. Every transition the session makes is
/// stated in `step`.
pub fn handle_event(state: Session, ix: &Index, ev: Event) -> (r: (Session, Effect))
    requires
        state.wf(),
        ix.wf(),
    ensures
        r.0.wf(),
        step(state, ix.entries(), ev, r.0, r.1),
{
    let Session { results, cursor, mode } = state;
    match ev {
        Event::Up => {
            let c2 = if matches!(mode, Mode::Browsing) && cursor > 0 {
                cursor - 1
            } else {
                cursor
            };
            (Session { results, cursor: c2, mode }, Effect::Continue)
        },
        Event::Down => {
            let c2 = if matches!(mode, Mode::Browsing) && cursor < results.len() && cursor + 1
                < results.len() {
                cursor + 1
            } else {
                cursor
            };
            (Session { results, cursor: c2, mode }, Effect::Continue)
        },
        Event::QueryEdited { text } => {
            match mode {
                Mode::Browsing => {
                    match search(ix, text.as_str()) {
                        Ok(found) => (
                            Session { results: found, cursor: 0, mode: Mode::Browsing },
                            Effect::Continue,
                        ),
                        Err(e) => {
                            let message = match e {
                                QueryError::Compile { message, .. } => message,
                            };
                            (
                                Session {
                                    results,
                                    cursor,
                                    mode: Mode::ErrorNotice {
                                        message,
                                        resume: Resume::ToBrowsing,
                                    },
                                },
                                Effect::Continue,
                            )
                        },
                    }
                },
                other => (Session { results, cursor, mode: other }, Effect::Continue),
            }
        },
        Event::Select => {
            match mode {
                Mode::Browsing => {
                    if cursor < results.len() {
                        let code = results[cursor].code;
                        match char::from_u32(code) {
                            Some(c) => (
                                Session {
                                    results,
                                    cursor,
                                    mode: Mode::SavePrompt {
                                        pending: c,
                                        alias: String::new(),
                                    },
                                },
                                Effect::Continue,
                            ),
                            None => (
                                Session {
                                    results,
                                    cursor,
                                    mode: Mode::ErrorNotice {
                                        message: String::from_str(
                                            "the entry does not decode to a character",
                                        ),
                                        resume: Resume::ToBrowsing,
                                    },
                                },
                                Effect::Continue,
                            ),
                        }
                    } else {
                        (
                            Session { results, cursor, mode: Mode::Browsing },
                            Effect::Continue,
                        )
                    }
                },
                other => (Session { results, cursor, mode: other }, Effect::Continue),
            }
        },
        Event::AliasEdited { text } => {
            match mode {
                Mode::SavePrompt { pending, .. } => (
                    Session { results, cursor, mode: Mode::SavePrompt { pending, alias: text } },
                    Effect::Continue,
                ),
                other => (Session { results, cursor, mode: other }, Effect::Continue),
            }
        },
        Event::SaveSubmit => {
            match mode {
                Mode::SavePrompt { pending, alias } => {
                    if alias.as_str().is_empty() {
                        (
                            Session {
                                results,
                                cursor,
                                mode: Mode::ErrorNotice {
                                    message: String::from_str("enter an alias name"),
                                    resume: Resume::ToSavePrompt { pending, alias },
                                },
                            },
                            Effect::Continue,
                        )
                    } else {
                        let kept = alias.clone();
                        (
                            Session {
                                results,
                                cursor,
                                mode: Mode::SavePrompt { pending, alias: kept },
                            },
                            Effect::SaveAndExit { alias, value: pending },
                        )
                    }
                },
                other => (Session { results, cursor, mode: other }, Effect::Continue),
            }
        },
        Event::SaveCancel => {
            match mode {
                Mode::SavePrompt { .. } => (
                    Session { results, cursor, mode: Mode::Browsing },
                    Effect::Continue,
                ),
                other => (Session { results, cursor, mode: other }, Effect::Continue),
            }
        },
        Event::AckNotice => {
            match mode {
                Mode::ErrorNotice { resume: Resume::ToBrowsing, .. } => (
                    Session { results, cursor, mode: Mode::Browsing },
                    Effect::Continue,
                ),
                Mode::ErrorNotice { resume: Resume::ToSavePrompt { pending, alias }, .. } => (
                    Session { results, cursor, mode: Mode::SavePrompt { pending, alias } },
                    Effect::Continue,
                ),
                other => (Session { results, cursor, mode: other }, Effect::Continue),
            }
        },
        Event::Quit => {
            if matches!(mode, Mode::Browsing) {
                (Session { results, cursor, mode }, Effect::QuitWithoutSaving)
            } else {
                (Session { results, cursor, mode }, Effect::Continue)
            }
        },
    }
}

} // verus!

