//! Listening to the log for contacts as they are entered.
use crate::laws::log::law_nothing_entered;
use crate::text::{
    chars_of, contains, find_chars, find_from, lemma_find_at, lemma_find_found, lemma_find_none,
    occurs_at, string_of, texts, trim, trimmed, upper_ascii, upper_chars, upper_text, uppercase,
};
use crate::xml::{parse_xml_tag, tag_value};
use vstd::prelude::*;

verus! {

/// The next step in a buffer of records.
pub enum RecordStep {
    /// No record starts in the buffer.
    NoStart,
    /// The record that starts first has not ended yet.
    Incomplete,
    /// A record, and what follows it.
    Record { record: Seq<char>, rest: Seq<char> },
}

/// The first record in a buffer. Its marks may be written in letters of either case.
pub open spec fn next_record(buffer: Seq<char>) -> RecordStep {
    let upper = upper_ascii(buffer);
    match find_from(upper, "<CMD>"@, 0) {
        None => RecordStep::NoStart,
        Some(s) => match find_from(upper, "</CMD>"@, s + 5) {
            None => RecordStep::Incomplete,
            Some(e) => RecordStep::Record { record: buffer.subrange(s + 5, e), rest: buffer.skip(e + 6) },
        },
    }
}

/// What follows a record is shorter than the buffer.
pub proof fn lemma_rest_shorter(buffer: Seq<char>)
    ensures
        next_record(buffer) matches RecordStep::Record { record, rest } ==> rest.len() < buffer.len(),
{
    lemma_marks();
    let upper = upper_ascii(buffer);
    lemma_find_found(upper, "<CMD>"@, 0);
    if let RecordStep::Record { record, rest } = next_record(buffer) {
        let s = find_from(upper, "<CMD>"@, 0)->0;
        lemma_find_found(upper, "</CMD>"@, s + 5);
    }
}

proof fn lemma_marks()
    ensures
        "<CMD>"@.len() == 5,
        "</CMD>"@.len() == 6,
{
    reveal_strlit("<CMD>");
    reveal_strlit("</CMD>");
}

/// The record tells that a contact was logged.
pub open spec fn is_enter_event(record: Seq<char>) -> bool {
    contains(upper_ascii(record), "<ENTEREVENT>"@)
}

/// The calls that a record adds: the one that was logged, or none.
pub open spec fn calls_in(record: Seq<char>) -> Seq<Seq<char>> {
    if is_enter_event(record) {
        match tag_value(record, "CALL"@) {
            Some(v) => if uppercase(trim(v)).len() > 0 {
                seq![uppercase(trim(v))]
            } else {
                Seq::empty()
            },
            None => Seq::empty(),
        }
    } else {
        Seq::empty()
    }
}

/// What is left of a buffer when all its complete records are taken out, and the calls that they log.
pub open spec fn drained(buffer: Seq<char>) -> (Seq<char>, Seq<Seq<char>>)
    decreases buffer.len(),
{
    match next_record(buffer) {
        RecordStep::NoStart => (Seq::empty(), Seq::empty()),
        RecordStep::Incomplete => (buffer, Seq::empty()),
        RecordStep::Record { record, rest } => {
            proof {
                lemma_rest_shorter(buffer);
            }
            let (left, calls) = drained(rest);
            (left, calls_in(record) + calls)
        },
    }
}

/// The command that asks the log to report what is entered.
pub fn subscribe_command() -> (r: &'static str)
    ensures
        r@ == "<CMD><CALLTABENTEREVENTS><VALUE>TRUE</VALUE></CMD>"@,
{
    "<CMD><CALLTABENTEREVENTS><VALUE>TRUE</VALUE></CMD>"
}

/// What came of looking for a record.
enum Found {
    NoStart,
    Incomplete,
    Record(String, String),
}

impl Found {
    spec fn is_step(self, step: RecordStep) -> bool {
        match self {
            Found::NoStart => step is NoStart,
            Found::Incomplete => step is Incomplete,
            Found::Record(record, rest) => step == (RecordStep::Record { record: record@, rest: rest@ }),
        }
    }
}

/// The first record in a buffer.
fn find_record(buffer: &str) -> (r: Found)
    ensures
        r.is_step(next_record(buffer@)),
{
    proof {
        lemma_marks();
    }
    let upper = upper_chars(buffer);
    let opening = chars_of("<CMD>");
    let closing = chars_of("</CMD>");
    let total: usize = upper.len();
    proof {
        lemma_find_found(upper@, opening@, 0);
    }
    let s = match find_chars(&upper, &opening, 0) {
        Some(s) => s,
        None => {
            return Found::NoStart;
        },
    };
    assert(s + 5 <= total);
    proof {
        lemma_find_found(upper@, closing@, s + 5);
    }
    let e = match find_chars(&upper, &closing, s + 5) {
        Some(e) => e,
        None => {
            return Found::Incomplete;
        },
    };
    assert(e + 6 <= total);
    let v = chars_of(buffer);
    let record = string_of(&v, s + 5, e);
    let rest = string_of(&v, e + 6, v.len());
    proof {
        assert(rest@ =~= buffer@.skip(e + 6));
    }
    Found::Record(record, rest)
}

/// The calls that a record adds.
fn read_record(record: &str, calls: &mut Vec<String>)
    ensures
        texts(final(calls)@) == texts(old(calls)@) + calls_in(record@),
{
    let ghost start = texts(calls@);
    let upper = upper_chars(record);
    let mark = chars_of("<ENTEREVENT>");
    proof {
        assert(start + Seq::<Seq<char>>::empty() =~= start);
        lemma_find_found(upper@, mark@, 0);
    }
    if find_chars(&upper, &mark, 0).is_some() {
        if let Some(v) = parse_xml_tag(record, "CALL") {
            let call = upper_text(trimmed(v.as_str()));
            if !call.as_str().is_empty() {
                let ghost c = call@;
                calls.push(call);
                proof {
                    assert(texts(calls@) =~= start + seq![c]);
                }
            }
        }
    }
}

/// Takes the complete records out of a buffer. Gives the calls that they log.
pub fn drain_records(buffer: &mut String) -> (r: Vec<String>)
    ensures
        drained(old(buffer)@) == (final(buffer)@, texts(r@)),
        !contains(upper_ascii(old(buffer)@), "<ENTEREVENT>"@) ==> r@.len() == 0,
{
    proof {
        if !contains(upper_ascii(buffer@), "<ENTEREVENT>"@) {
            law_nothing_entered(buffer@);
        }
    }
    let mut calls: Vec<String> = Vec::new();
    let mut work = buffer.clone();
    let ghost whole = buffer@;
    proof {
        assert(texts(calls@) =~= Seq::<Seq<char>>::empty());
        assert(texts(calls@) + drained(work@).1 =~= drained(whole).1);
    }
    loop
        invariant
            drained(whole).0 == drained(work@).0,
            drained(whole).1 == texts(calls@) + drained(work@).1,
            whole == old(buffer)@,
            !contains(upper_ascii(whole), "<ENTEREVENT>"@) ==> drained(whole).1.len() == 0,
        decreases work@.len(),
    {
        proof {
            lemma_rest_shorter(work@);
            assert(texts(calls@) + Seq::<Seq<char>>::empty() =~= texts(calls@));
        }
        match find_record(work.as_str()) {
            Found::NoStart => {
                *buffer = String::new();
                proof {
                    assert(buffer@ =~= Seq::<char>::empty());
                }
                return calls;
            },
            Found::Incomplete => {
                *buffer = work;
                return calls;
            },
            Found::Record(record, rest) => {
                let ghost before = texts(calls@);
                read_record(record.as_str(), &mut calls);
                proof {
                    assert(texts(calls@) + drained(rest@).1 =~= before + (calls_in(record@) + drained(rest@).1));
                }
                work = rest;
            },
        }
    }
}

/// The link to the log.
pub struct Listener {
    pub buffer: String,
    pub connected: bool,
    pub running: bool,
}

/// What happened to the link.
pub enum ListenerEvent {
    /// The address is none, or nobody listens there, or the command could not be sent.
    NotOpened,
    /// The command was sent.
    Opened,
    /// The log closed the link, or reading failed.
    Ended,
    /// Nothing came in time.
    Idle,
    /// Text came.
    Received(String),
    /// The user asked to stop.
    Stopped,
}

/// What is to be done next.
#[derive(Clone, Copy, PartialEq, Eq, Structural)]
pub enum ListenerAction {
    Read,
    Finish,
}

impl Listener {
    pub fn new() -> (r: Listener)
        ensures
            r.buffer@ == Seq::<char>::empty(),
            !r.connected,
            r.running,
    {
        let r = Listener { buffer: String::new(), connected: false, running: true };
        proof {
            assert(r.buffer@ =~= Seq::<char>::empty());
        }
        r
    }

    /// Takes in what happened; gives the calls that were logged and what is to be done next.
    pub fn on_event(&mut self, event: ListenerEvent) -> (r: (Vec<String>, ListenerAction))
        ensures
            match event {
                ListenerEvent::NotOpened | ListenerEvent::Ended | ListenerEvent::Stopped => {
                    &&& !final(self).connected
                    &&& !final(self).running
                    &&& final(self).buffer@ == old(self).buffer@
                    &&& r.0@.len() == 0
                    &&& r.1 == ListenerAction::Finish
                },
                ListenerEvent::Opened => {
                    &&& final(self).connected
                    &&& final(self).running == old(self).running
                    &&& final(self).buffer@ == old(self).buffer@
                    &&& r.0@.len() == 0
                    &&& r.1 == ListenerAction::Read
                },
                ListenerEvent::Idle => {
                    &&& final(self).connected == old(self).connected
                    &&& final(self).running == old(self).running
                    &&& final(self).buffer@ == old(self).buffer@
                    &&& r.0@.len() == 0
                    &&& r.1 == ListenerAction::Read
                },
                ListenerEvent::Received(text) => {
                    let (left, calls) = drained(old(self).buffer@ + text@);
                    &&& final(self).connected == old(self).connected
                    &&& final(self).running == old(self).running
                    &&& final(self).buffer@ == left
                    &&& texts(r.0@) == calls
                    &&& r.1 == ListenerAction::Read
                },
            },
    {
        match event {
            ListenerEvent::NotOpened | ListenerEvent::Ended | ListenerEvent::Stopped => {
                self.connected = false;
                self.running = false;
                (Vec::new(), ListenerAction::Finish)
            },
            ListenerEvent::Opened => {
                self.connected = true;
                (Vec::new(), ListenerAction::Read)
            },
            ListenerEvent::Idle => (Vec::new(), ListenerAction::Read),
            ListenerEvent::Received(text) => {
                let mut buffer = self.buffer.clone();
                buffer.append(text.as_str());
                let calls = drain_records(&mut buffer);
                self.buffer = buffer;
                (calls, ListenerAction::Read)
            },
        }
    }
}

/// The text ends within the mark that starts a record.
pub open spec fn ends_in_mark(t: Seq<char>) -> bool {
    exists|k: int|
        0 < k < "<CMD>"@.len() && k <= t.len() && #[trigger] upper_ascii(t).skip(t.len() - k) == "<CMD>"@.take(k)
}

/// The text can be cut off here: what is left when its records are taken out does not end within the
/// mark that starts the next one.
pub open spec fn can_end(buffer: Seq<char>) -> bool
    decreases buffer.len(),
{
    match next_record(buffer) {
        RecordStep::NoStart => !ends_in_mark(buffer),
        RecordStep::Incomplete => true,
        RecordStep::Record { record, rest } => {
            proof {
                lemma_rest_shorter(buffer);
            }
            can_end(rest)
        },
    }
}

/// What was found stays where it is when more text follows.
proof fn lemma_find_stays(a: Seq<char>, b: Seq<char>, mark: Seq<char>, from: int)
    requires
        from >= 0,
        find_from(upper_ascii(a), mark, from) is Some,
    ensures
        find_from(upper_ascii(a + b), mark, from) == find_from(upper_ascii(a), mark, from),
{
    let x = upper_ascii(a);
    let z = upper_ascii(a + b);
    lemma_find_found(x, mark, from);
    let i = find_from(x, mark, from)->0;
    assert forall|j: int| from <= j <= i implies occurs_at(z, mark, j) == occurs_at(x, mark, j) by {
        assert(z.subrange(j, j + mark.len()) =~= x.subrange(j, j + mark.len()));
    }
    lemma_find_at(z, mark, from, i);
}

/// What is looked for after a text does not depend on it.
pub proof fn lemma_find_shifts(a: Seq<char>, b: Seq<char>, mark: Seq<char>, from: int)
    requires
        from >= 0,
    ensures
        find_from(upper_ascii(a + b), mark, a.len() + from) == match find_from(upper_ascii(b), mark, from) {
            Some(i) => Some(a.len() + i),
            None => None,
        },
{
    let y = upper_ascii(b);
    let z = upper_ascii(a + b);
    lemma_find_found(y, mark, from);
    assert forall|j: int| from <= j implies #[trigger] occurs_at(z, mark, a.len() + j) == occurs_at(y, mark, j) by {
        if j + mark.len() <= y.len() {
            assert(z.subrange(a.len() + j, a.len() + j + mark.len()) =~= y.subrange(j, j + mark.len()));
        }
    }
    match find_from(y, mark, from) {
        Some(i) => {
            assert forall|j: int| a.len() + from <= j < a.len() + i implies !occurs_at(z, mark, j) by {
                assert(occurs_at(z, mark, a.len() + (j - a.len())) == occurs_at(y, mark, j - a.len()));
            }
            assert(occurs_at(z, mark, a.len() + i));
            lemma_find_at(z, mark, a.len() + from, a.len() + i);
        },
        None => {
            assert forall|j: int| a.len() + from <= j implies !occurs_at(z, mark, j) by {
                assert(occurs_at(z, mark, a.len() + (j - a.len())) == occurs_at(y, mark, j - a.len()));
            }
            lemma_find_none(z, mark, a.len() + from);
        },
    }
}

/// Where no record starts, and none is about to, what follows is read as if it stood alone.
proof fn lemma_no_start(a: Seq<char>, b: Seq<char>)
    requires
        next_record(a) is NoStart,
        !ends_in_mark(a),
    ensures
        drained(a + b).1 == drained(b).1,
{
    lemma_marks();
    let mark = "<CMD>"@;
    let x = upper_ascii(a);
    let z = upper_ascii(a + b);
    lemma_find_found(x, mark, 0);
    assert forall|j: int| 0 <= j < a.len() implies !occurs_at(z, mark, j) by {
        if occurs_at(z, mark, j) {
            if j + mark.len() <= a.len() {
                assert(z.subrange(j, j + mark.len()) =~= x.subrange(j, j + mark.len()));
                assert(occurs_at(x, mark, j));
            } else {
                let k = a.len() - j;
                assert(z.subrange(j, j + mark.len()) == mark);
                assert(x.skip(a.len() - k) =~= mark.take(k)) by {
                    assert forall|i: int| 0 <= i < k implies x.skip(j)[i] == mark.take(k)[i] by {
                        assert(z.subrange(j, j + mark.len())[i] == mark[i]);
                    }
                }
            }
        }
    }
    lemma_find_shifts(a, b, mark, 0);
    lemma_find_found(z, mark, a.len() as int);
    match find_from(z, mark, a.len() as int) {
        Some(i) => lemma_find_at(z, mark, 0, i),
        None => lemma_find_none(z, mark, 0),
    }
    lemma_find_found(upper_ascii(b), mark, 0);
    if let Some(s) = find_from(upper_ascii(b), mark, 0) {
        let end = "</CMD>"@;
        lemma_find_shifts(a, b, end, s + 5);
        lemma_find_found(upper_ascii(b), end, s + 5);
        if let Some(e) = find_from(upper_ascii(b), end, s + 5) {
            let t = a.len() + s;
            assert((a + b).subrange(t + 5, a.len() + e) =~= b.subrange(s + 5, e));
            assert((a + b).skip(a.len() + e + 6) =~= b.skip(e + 6));
        }
    }
}

/// However the text of the log is cut up on its way, the same calls are heard, in the same order: those
/// of the first part, and then those of its rest with the second part behind it. The one place where it
/// must not be cut is within the mark that starts a record.
pub proof fn law_records_in_parts(first: Seq<char>, second: Seq<char>)
    requires
        can_end(first),
    ensures
        drained(first + second).1 == drained(first).1 + drained(drained(first).0 + second).1,
    decreases first.len(),
{
    lemma_marks();
    let none = Seq::<Seq<char>>::empty();
    match next_record(first) {
        RecordStep::NoStart => {
            lemma_no_start(first, second);
            assert(Seq::<char>::empty() + second =~= second);
            assert(none + drained(second).1 =~= drained(second).1);
        },
        RecordStep::Incomplete => {
            assert(none + drained(first + second).1 =~= drained(first + second).1);
        },
        RecordStep::Record { record, rest } => {
            lemma_rest_shorter(first);
            let x = upper_ascii(first);
            let s = find_from(x, "<CMD>"@, 0)->0;
            lemma_find_found(x, "<CMD>"@, 0);
            let e = find_from(x, "</CMD>"@, s + 5)->0;
            lemma_find_found(x, "</CMD>"@, s + 5);
            lemma_find_stays(first, second, "<CMD>"@, 0);
            lemma_find_stays(first, second, "</CMD>"@, s + 5);
            assert((first + second).subrange(s + 5, e) =~= record);
            assert((first + second).skip(e + 6) =~= rest + second);
            law_records_in_parts(rest, second);
            lemma_rest_shorter(first + second);
            let more = drained(drained(rest).0 + second).1;
            assert(calls_in(record) + (drained(rest).1 + more) =~= (calls_in(record) + drained(rest).1) + more);
        },
    }
}

} // verus!
