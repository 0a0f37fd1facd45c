use crate::db::{expiry, ValueView, DB};
use crate::frame::{lemma_array_view, views, Frame, FrameView};
use crate::order::same_text;
use crate::text::{string_from_utf8_lossy, text_of, to_uppercase, uppercase};
use std::collections::VecDeque;
use vstd::prelude::*;
use vstd::slice::slice_to_vec;
use vstd::utf8::encode_utf8;

verus! {

/// Runs the command that a frame holds against the database. Every method
/// says what the database holds after it, and that the runner still works
/// on the database that it was made for.
pub struct Runner<'a> {
    pub db: &'a mut DB,
}

/// Why a frame could not be run as a command.
#[derive(Debug)]
pub enum RunnerError {
    /// The command lacks a part.
    Incomplete,
    /// The command cannot be run, with the reason as text.
    Other(String),
    /// The command, or one of its parts, is not one that is supported.
    Unsupported,
}

/// The mathematical value of a [`RunnerError`].
pub enum Refusal {
    Incomplete,
    Other(Seq<char>),
    Unsupported,
}

impl View for RunnerError {
    type V = Refusal;

    open spec fn view(&self) -> Refusal {
        match self {
            RunnerError::Incomplete => Refusal::Incomplete,
            RunnerError::Other(text) => Refusal::Other(text@),
            RunnerError::Unsupported => Refusal::Unsupported,
        }
    }
}

/// The words that commands are made of.
#[derive(Debug, PartialEq, Eq, Structural, Clone, Copy)]
pub enum Word {
    Ping,
    SetKey,
    GetKey,
    Expire,
    Unknown,
}

/// The word that a text in upper case spells.
pub open spec fn word(upper: Seq<char>) -> Word {
    if upper == "PING"@ {
        Word::Ping
    } else if upper == "SET"@ {
        Word::SetKey
    } else if upper == "GET"@ {
        Word::GetKey
    } else if upper == "EX"@ {
        Word::Expire
    } else {
        Word::Unknown
    }
}

/// The word that a text in upper case spells.
pub fn word_of(upper: &str) -> (spelled: Word)
    ensures
        spelled == word(upper@),
{
    if same_text(upper, "PING") {
        Word::Ping
    } else if same_text(upper, "SET") {
        Word::SetKey
    } else if same_text(upper, "GET") {
        Word::GetKey
    } else if same_text(upper, "EX") {
        Word::Expire
    } else {
        Word::Unknown
    }
}

/// The text of the reply to `PING`.
pub open spec fn pong_text() -> Seq<char> {
    "PONG"@
}

/// The text of the reply to a `SET` that was carried out.
pub open spec fn ok_text() -> Seq<char> {
    "OK"@
}

/// The text of the reply to a `GET` of a key that is not kept.
pub open spec fn nil_text() -> Seq<char> {
    "Nill"@
}

/// The text that goes with a time to live that is no integer.
pub open spec fn ttl_type_text() -> Seq<char> {
    "Incorrect ttl data type. Should be an integer"@
}

/// The seconds to live that a number of a frame stands for: the number
/// itself, or the largest number of seconds that can be written.
pub open spec fn ttl_seconds(n: u64) -> u32 {
    if n > u32::MAX {
        u32::MAX
    } else {
        n as u32
    }
}

/// What running a command gives: the reply or the refusal, and the entries
/// of the database afterwards.
pub struct Ran {
    pub reply: Result<FrameView, Refusal>,
    pub entries: Map<Seq<char>, ValueView>,
}

/// A command that is refused leaves the entries as they are.
pub open spec fn refused(entries: Map<Seq<char>, ValueView>, refusal: Refusal) -> Ran {
    Ran { reply: Err(refusal), entries }
}

/// A `SET` that is carried out stores the bytes of the text and replies `OK`.
pub open spec fn stored(
    entries: Map<Seq<char>, ValueView>,
    key: Seq<char>,
    text: Seq<char>,
    expires_at: Option<u32>,
) -> Ran {
    Ran {
        reply: Ok(FrameView::SimpleString(ok_text())),
        entries: entries.insert(key, ValueView { value: encode_utf8(text), expires_at }),
    }
}

/// The word that the option of a command spells: the third of the frames
/// that follow the command, where it is a text, in upper case.
pub open spec fn option_word(args: Seq<FrameView>) -> Word {
    if args.len() > 2 && args[2] is SimpleString {
        word(uppercase(args[2]->SimpleString_0))
    } else {
        Word::Unknown
    }
}

/// What `SET` gives for the frames that follow it and the word that its
/// option spells, at a given second.
pub open spec fn ran_set(
    entries: Map<Seq<char>, ValueView>,
    args: Seq<FrameView>,
    option: Word,
    now: u32,
) -> Ran {
    if args.len() < 1 {
        refused(entries, Refusal::Incomplete)
    } else if !(args[0] is SimpleString) {
        refused(entries, Refusal::Unsupported)
    } else if args.len() < 2 {
        refused(entries, Refusal::Incomplete)
    } else if !(args[1] is SimpleString) {
        refused(entries, Refusal::Unsupported)
    } else if args.len() == 2 {
        stored(entries, args[0]->SimpleString_0, args[1]->SimpleString_0, None)
    } else if !(args[2] is SimpleString && option == Word::Expire) {
        refused(entries, Refusal::Unsupported)
    } else if args.len() < 4 {
        refused(entries, Refusal::Incomplete)
    } else if !(args[3] is Integer) {
        refused(entries, Refusal::Other(ttl_type_text()))
    } else if args.len() > 4 {
        refused(entries, Refusal::Unsupported)
    } else {
        stored(
            entries,
            args[0]->SimpleString_0,
            args[1]->SimpleString_0,
            Some(expiry(now, ttl_seconds(args[3]->Integer_0))),
        )
    }
}

/// What `GET` gives for the frames that follow it.
pub open spec fn ran_get(entries: Map<Seq<char>, ValueView>, args: Seq<FrameView>) -> Ran {
    if args.len() < 1 {
        refused(entries, Refusal::Incomplete)
    } else if !(args[0] is SimpleString) {
        refused(entries, Refusal::Unsupported)
    } else if args.len() > 1 {
        refused(entries, Refusal::Unsupported)
    } else {
        let key = args[0]->SimpleString_0;
        if entries.dom().contains(key) {
            Ran { reply: Ok(FrameView::SimpleString(text_of(entries[key].value))), entries }
        } else {
            Ran { reply: Ok(FrameView::SimpleError(nil_text())), entries }
        }
    }
}

/// What a command gives whose name and option, in upper case, spell given
/// words.
pub open spec fn ran_cmd(
    entries: Map<Seq<char>, ValueView>,
    name: Word,
    option: Word,
    args: Seq<FrameView>,
    now: u32,
) -> Ran {
    match name {
        Word::SetKey => ran_set(entries, args, option, now),
        Word::GetKey => ran_get(entries, args),
        _ => refused(entries, Refusal::Unsupported),
    }
}

/// What the frames of an array give: the first names the command, the
/// others are what it works on.
pub open spec fn ran_array(
    entries: Map<Seq<char>, ValueView>,
    items: Seq<FrameView>,
    now: u32,
) -> Ran {
    if items.len() == 0 {
        refused(entries, Refusal::Incomplete)
    } else {
        match items[0] {
            FrameView::SimpleString(name) => ran_cmd(
                entries,
                word(uppercase(name)),
                option_word(items.skip(1)),
                items.skip(1),
                now,
            ),
            _ => refused(entries, Refusal::Unsupported),
        }
    }
}

/// The reply to a text that stands alone as a command.
pub open spec fn string_reply(name: Word) -> Result<FrameView, Refusal> {
    match name {
        Word::Ping => Ok(FrameView::SimpleString(pong_text())),
        _ => Err(Refusal::Unsupported),
    }
}

/// What a text gives that stands alone as a command: its reply, and the
/// entries as they are.
pub open spec fn ran_string(entries: Map<Seq<char>, ValueView>, name: Word) -> Ran {
    Ran { reply: string_reply(name), entries }
}

/// What running a frame gives, at a given second.
pub open spec fn ran(entries: Map<Seq<char>, ValueView>, frame: FrameView, now: u32) -> Ran {
    match frame {
        FrameView::SimpleString(name) => ran_string(entries, word(uppercase(name))),
        FrameView::Array(items) => ran_array(entries, items, now),
        _ => refused(entries, Refusal::Unsupported),
    }
}

/// The frame with which a command is answered: its reply, or the error that
/// tells why it was refused.
pub open spec fn answer(reply: Result<FrameView, Refusal>) -> FrameView {
    match reply {
        Ok(frame) => frame,
        Err(refusal) => refusal_reply(refusal),
    }
}

/// Whether a result is the reply or the refusal that running gives.
pub open spec fn replies(
    res: Result<Frame, RunnerError>,
    reply: Result<FrameView, Refusal>,
) -> bool {
    match res {
        Ok(frame) => reply == Ok::<FrameView, Refusal>(frame@),
        Err(e) => reply == Err::<FrameView, Refusal>(e@),
    }
}

impl<'a> Runner<'a> {
    /// A runner that works on a database.
    pub fn new(db: &'a mut DB) -> (runner: Runner<'a>)
        ensures
            *runner.db == *old(db),
            *final(db) == *final(runner.db),
    {
        Runner { db }
    }

    /// Runs the command that a frame holds. The seconds to live of a `SET`
    /// are counted from some reading of the system clock.
    pub fn run(&mut self, frame: Frame) -> (res: Result<Frame, RunnerError>)
        ensures
            *final(final(self).db) == *final(old(self).db),
            exists|now: u32|
                replies(res, (#[trigger] ran(old(self).db@, frame@, now)).reply)
                    && final(self).db@ == ran(old(self).db@, frame@, now).entries,
    {
        let now = crate::clock::now();
        self.run_at(frame, now)
    }

    /// Answers a frame: with the reply of the command that it holds, or
    /// with the error that tells why the command was refused. The seconds
    /// to live of a `SET` are counted from some reading of the system clock.
    pub fn respond(&mut self, frame: Frame) -> (reply: Frame)
        ensures
            *final(final(self).db) == *final(old(self).db),
            exists|now: u32|
                reply@ == answer((#[trigger] ran(old(self).db@, frame@, now)).reply)
                    && final(self).db@ == ran(old(self).db@, frame@, now).entries,
    {
        let now = crate::clock::now();
        self.respond_at(frame, now)
    }

    /// Answers a frame at a given second: with the reply of the command that
    /// it holds, or with the error that tells why the command was refused.
    pub fn respond_at(&mut self, frame: Frame, now: u32) -> (reply: Frame)
        ensures
            *final(final(self).db) == *final(old(self).db),
            reply@ == answer(ran(old(self).db@, frame@, now).reply),
            final(self).db@ == ran(old(self).db@, frame@, now).entries,
    {
        match self.run_at(frame, now) {
            Ok(reply) => reply,
            Err(err) => err.reply(),
        }
    }

    /// Runs the command that a frame holds, at a given second.
    pub fn run_at(&mut self, frame: Frame, now: u32) -> (res: Result<Frame, RunnerError>)
        ensures
            *final(final(self).db) == *final(old(self).db),
            replies(res, ran(old(self).db@, frame@, now).reply),
            final(self).db@ == ran(old(self).db@, frame@, now).entries,
    {
        match frame {
            Frame::SimpleString(input) => self.run_string(input),
            Frame::Array(input) => {
                proof {
                    lemma_array_view(input);
                }
                self.run_array(input, now)
            },
            _ => Err(RunnerError::Unsupported),
        }
    }

    fn run_array(&mut self, frames: VecDeque<Frame>, now: u32) -> (res: Result<Frame, RunnerError>)
        ensures
            *final(final(self).db) == *final(old(self).db),
            replies(res, ran_array(old(self).db@, views(frames@), now).reply),
            final(self).db@ == ran_array(old(self).db@, views(frames@), now).entries,
    {
        let mut frames = frames;
        let ghost items = views(frames@);
        match frames.pop_front() {
            None => Err(RunnerError::Incomplete),
            Some(command) => {
                assert(views(frames@) =~= items.skip(1));
                assert(command@ == items[0]);
                match command {
                    Frame::SimpleString(input) => {
                        let name = word_of(to_uppercase(input.as_str()).as_str());
                        let option = Self::option_of(&frames);
                        self.run_cmd(name, option, frames, now)
                    },
                    _ => Err(RunnerError::Unsupported),
                }
            },
        }
    }

    /// The word that the option of a command spells.
    fn option_of(frames: &VecDeque<Frame>) -> (option: Word)
        ensures
            option == option_word(views(frames@)),
    {
        if frames.len() > 2 {
            match &frames[2] {
                Frame::SimpleString(text) => word_of(to_uppercase(text.as_str()).as_str()),
                _ => Word::Unknown,
            }
        } else {
            Word::Unknown
        }
    }

    /// Runs the command whose name spells a given word on the frames that
    /// follow it, the third of which spells the word of the option.
    pub fn run_cmd(&mut self, name: Word, option: Word, frames: VecDeque<Frame>, now: u32) -> (res:
        Result<Frame, RunnerError>)
        ensures
            *final(final(self).db) == *final(old(self).db),
            replies(res, ran_cmd(old(self).db@, name, option, views(frames@), now).reply),
            final(self).db@ == ran_cmd(old(self).db@, name, option, views(frames@), now).entries,
    {
        match name {
            Word::SetKey => self.run_set(frames, option, now),
            Word::GetKey => self.run_get(frames),
            _ => Err(RunnerError::Unsupported),
        }
    }

    /// Runs `SET` on the frames that follow it: the key and the value, and
    /// with the option `EX` the seconds that the entry lives.
    pub fn run_set(&mut self, frames: VecDeque<Frame>, option: Word, now: u32) -> (res: Result<
        Frame,
        RunnerError,
    >)
        ensures
            *final(final(self).db) == *final(old(self).db),
            replies(res, ran_set(old(self).db@, views(frames@), option, now).reply),
            final(self).db@ == ran_set(old(self).db@, views(frames@), option, now).entries,
    {
        let mut frames = frames;
        let ghost args = views(frames@);
        let key = match frames.pop_front() {
            None => {
                return Err(RunnerError::Incomplete);
            },
            Some(Frame::SimpleString(input)) => input,
            Some(_) => {
                return Err(RunnerError::Unsupported);
            },
        };
        assert(views(frames@) =~= args.skip(1));
        let value = match frames.pop_front() {
            None => {
                return Err(RunnerError::Incomplete);
            },
            Some(Frame::SimpleString(input)) => input,
            Some(_) => {
                return Err(RunnerError::Unsupported);
            },
        };
        assert(views(frames@) =~= args.skip(2));
        // The option, if there is one, is followed by the seconds to live
        let ttl = match frames.pop_front() {
            None => None,
            Some(Frame::SimpleString(_)) => {
                match option {
                    Word::Expire => {
                        assert(views(frames@) =~= args.skip(3));
                        match frames.pop_front() {
                            None => {
                                return Err(RunnerError::Incomplete);
                            },
                            Some(Frame::Integer(seconds)) => {
                                assert(views(frames@) =~= args.skip(4));
                                if frames.len() > 0 {
                                    return Err(RunnerError::Unsupported);
                                }
                                if seconds > u32::MAX as u64 {
                                    Some(u32::MAX)
                                } else {
                                    Some(seconds as u32)
                                }
                            },
                            Some(_) => {
                                return Err(
                                    RunnerError::Other(
                                        "Incorrect ttl data type. Should be an integer".to_owned(),
                                    ),
                                );
                            },
                        }
                    },
                    _ => {
                        return Err(RunnerError::Unsupported);
                    },
                }
            },
            Some(_) => {
                return Err(RunnerError::Unsupported);
            },
        };
        let bytes = slice_to_vec(value.as_str().as_bytes());
        self.db.set_at(key, bytes, ttl, now);
        Ok(Frame::SimpleString("OK".to_owned()))
    }

    /// Runs `GET` on the frame that follows it: the key.
    pub fn run_get(&mut self, frames: VecDeque<Frame>) -> (res: Result<Frame, RunnerError>)
        ensures
            *final(final(self).db) == *final(old(self).db),
            replies(res, ran_get(old(self).db@, views(frames@)).reply),
            final(self).db@ == ran_get(old(self).db@, views(frames@)).entries,
    {
        let mut frames = frames;
        let ghost args = views(frames@);
        let key = match frames.pop_front() {
            None => {
                return Err(RunnerError::Incomplete);
            },
            Some(Frame::SimpleString(input)) => input,
            Some(_) => {
                return Err(RunnerError::Unsupported);
            },
        };
        assert(views(frames@) =~= args.skip(1));
        if frames.len() > 0 {
            return Err(RunnerError::Unsupported);
        }
        match self.db.get(key.as_str()) {
            Some(value) => Ok(Frame::SimpleString(string_from_utf8_lossy(value.as_slice()))),
            None => Ok(Frame::SimpleError("Nill".to_owned())),
        }
    }

    fn run_string(&self, input: String) -> (res: Result<Frame, RunnerError>)
        ensures
            replies(res, string_reply(word(uppercase(input@)))),
    {
        let upper = to_uppercase(input.as_str());
        Self::run_word(word_of(upper.as_str()))
    }

    /// Runs the command that one word makes when it stands alone.
    pub fn run_word(name: Word) -> (res: Result<Frame, RunnerError>)
        ensures
            replies(res, string_reply(name)),
    {
        match name {
            Word::Ping => Ok(Frame::SimpleString("PONG".to_owned())),
            _ => Err(RunnerError::Unsupported),
        }
    }
}

impl RunnerError {
    /// The frame with which a command that was refused is answered.
    pub fn reply(self) -> (frame: Frame)
        ensures
            frame@ == refusal_reply(self@),
    {
        match self {
            RunnerError::Other(text) => Frame::SimpleError(text),
            RunnerError::Incomplete => Frame::SimpleError(
                "Protocol Error: Incorrect usage of command".to_owned(),
            ),
            RunnerError::Unsupported => Frame::SimpleError(
                "Protocol Error: Unsupported usage of command or values".to_owned(),
            ),
        }
    }
}

/// The frame with which a command that was refused is answered.
pub open spec fn refusal_reply(refusal: Refusal) -> FrameView {
    match refusal {
        Refusal::Other(text) => FrameView::SimpleError(text),
        Refusal::Incomplete => FrameView::SimpleError(
            "Protocol Error: Incorrect usage of command"@,
        ),
        Refusal::Unsupported => FrameView::SimpleError(
            "Protocol Error: Unsupported usage of command or values"@,
        ),
    }
}

} // verus!
