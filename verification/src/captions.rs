//! Short texts that the window shows.

use crate::autosave::AUTOSAVE_INTERVAL;
use crate::compose;
use crate::compose::number;
use crate::editor;
use crate::session;
use crate::session::{LogEntry, LogLevel, LogModel, Session, SessionModel};
use crate::text;
use crate::translation;
use vstd::prelude::*;

verus! {

/// How many characters of a title stand on a quest without a picture.
pub const NODE_LABEL_LENGTH: usize = 3;

/// What stands on a quest without a picture: the first characters of its title, or a question
/// mark.
pub open spec fn short_label(title: Seq<char>) -> Seq<char> {
    let shown = text::trimmed(title);
    if shown.len() == 0 {
        "?"@
    } else if shown.len() <= NODE_LABEL_LENGTH {
        shown
    } else {
        shown.take(NODE_LABEL_LENGTH as int)
    }
}

/// What stands on a quest without a picture.
pub fn node_label(title: &str) -> (r: String)
    ensures
        r@ == short_label(title@),
{
    let shown = text::trim(title);
    let chars = text::chars_of(shown.as_str());
    if chars.len() == 0 {
        "?".to_owned()
    } else if chars.len() <= NODE_LABEL_LENGTH {
        shown
    } else {
        text::part(&chars, 0, NODE_LABEL_LENGTH)
    }
}

/// A number of two digits at least.
pub open spec fn two_digits(n: nat) -> Seq<char> {
    if n < 10 {
        "0"@ + compose::decimal(n)
    } else {
        compose::decimal(n)
    }
}

fn write_two_digits(n: u64) -> (r: String)
    ensures
        r@ == two_digits(n as nat),
{
    if n < 10 {
        let mut r = "0".to_owned();
        r.append(number(n as u128).as_str());
        r
    } else {
        number(n as u128)
    }
}

/// A line of the log: the minutes and seconds that had passed, and the message.
pub open spec fn log_line(entry: LogModel) -> Seq<char> {
    "["@ + two_digits((entry.elapsed / 60) as nat) + ":"@ + two_digits((entry.elapsed % 60) as nat)
        + "] "@ + entry.message
}

impl LogEntry {
    /// The line of the log.
    pub fn line(&self) -> (r: String)
        ensures
            r@ == log_line(self@),
    {
        let mut r = "[".to_owned();
        r.append(write_two_digits(self.elapsed / 60).as_str());
        r.append(":");
        r.append(write_two_digits(self.elapsed % 60).as_str());
        r.append("] ");
        r.append(self.message.as_str());
        r
    }
}

/// The whole seconds until the next snapshot.
pub open spec fn seconds_left(nanos: u64) -> nat {
    if nanos >= AUTOSAVE_INTERVAL {
        0
    } else {
        ((AUTOSAVE_INTERVAL - nanos) / 1_000_000_000) as nat
    }
}

/// What is said of the next snapshot, so many nanoseconds after the last one.
pub fn describe_next_snapshot(enabled: bool, nanos: u64, folder: &str) -> (r: String)
    ensures
        r@ == if enabled {
            "Следующее автосохранение через "@ + compose::decimal(seconds_left(nanos) / 60) + ":"@
                + two_digits(seconds_left(nanos) % 60) + ". Текущий снимок: "@ + folder@
        } else {
            "Автосохранение выключено."@
        },
{
    if !enabled {
        return "Автосохранение выключено.".to_owned();
    }
    let left: u64 = if nanos >= AUTOSAVE_INTERVAL {
        0
    } else {
        (AUTOSAVE_INTERVAL - nanos) / 1_000_000_000
    };
    let mut r = "Следующее автосохранение через ".to_owned();
    r.append(number((left / 60) as u128).as_str());
    r.append(":");
    r.append(write_two_digits(left % 60).as_str());
    r.append(". Текущий снимок: ");
    r.append(folder);
    r
}

/// What is said of a search: how much was found, and how much of it is shown.
pub fn describe_hits(total: usize, shown: usize) -> (r: String)
    ensures
        r@ == "Найдено: "@ + compose::decimal(total as nat) + if total > shown {
            ", показаны первые "@ + compose::decimal(shown as nat)
        } else {
            Seq::empty()
        },
{
    let mut r = "Найдено: ".to_owned();
    r.append(number(total as u128).as_str());
    if total > shown {
        let mut more = ", показаны первые ".to_owned();
        more.append(number(shown as u128).as_str());
        r.append(more.as_str());
    }
    r
}

/// The session after a language has been asked for: it is added and shown where there is none of
/// that name and the name is one.
pub open spec fn with_language(s: SessionModel, locale: Seq<char>) -> SessionModel {
    let translations = translation::with_locale(s.book.translations, locale);
    if translation::can_add(s.book.translations, locale) {
        SessionModel {
            book: editor::BookModel { translations, ..s.book },
            status: "Добавлен язык "@ + translations.active_locale + "."@,
            ..s
        }
    } else {
        SessionModel { status: "Язык уже существует или код локали некорректен."@, ..s }
    }
}

impl Session {
    /// Adds a language and shows it; whether it could be added.
    pub fn add_language(&mut self, locale: &str) -> (r: bool)
        ensures
            r == translation::can_add(old(self)@.book.translations, locale@),
            final(self)@ == with_language(old(self)@, locale@),
    {
        if self.book.translations.add_locale(locale) {
            let mut status = "Добавлен язык ".to_owned();
            status.append(self.book.translations.active_locale.as_str());
            status.append(".");
            self.status = status;
            true
        } else {
            self.status = "Язык уже существует или код локали некорректен.".to_owned();
            false
        }
    }

    /// Whether a snapshot can be made for a destination; the log says where it cannot.
    pub fn begin_autosave(&mut self, destination: &str, elapsed: u64) -> (r: bool)
        ensures
            r == (text::trimmed(destination@).len() > 0),
            final(self)@ == if r {
                old(self)@
            } else {
                session::logged(
                    old(self)@,
                    LogLevel::Error,
                    "Автосохранение пропущено: не указана папка проекта."@,
                    elapsed,
                )
            },
    {
        if text::is_blank(destination) {
            self.push_log(
                LogLevel::Error,
                "Автосохранение пропущено: не указана папка проекта.".to_owned(),
                elapsed,
            );
            false
        } else {
            true
        }
    }

    /// Tells the reader that snapshots were switched on or off.
    pub fn note_autosave_switch(&mut self, enabled: bool, elapsed: u64)
        ensures
            final(self)@ == session::logged(
                old(self)@,
                LogLevel::Info,
                if enabled {
                    "Автосохранение включено."@
                } else {
                    "Автосохранение выключено."@
                },
                elapsed,
            ),
    {
        let message = if enabled {
            "Автосохранение включено."
        } else {
            "Автосохранение выключено."
        };
        self.push_log(LogLevel::Info, message.to_owned(), elapsed);
    }
}

} // verus!
