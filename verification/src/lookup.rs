//! Asking the log which spots are wanted, one batch at a time.
use crate::n3fjp::{atno_in, atno_text, country_in, country_text, is_status, N3fjpClient};
use vstd::hash_map::StringHashMap;
use vstd::prelude::*;

verus! {

/// A call on a band in a mode.
pub struct Wanted {
    pub call: String,
    pub band: String,
    pub mode: String,
}

/// What the log says of a [`Wanted`].
pub struct Finding {
    pub cache_key: String,
    pub call: String,
    pub country: String,
    pub status: String,
}

/// The contents of a [`Wanted`].
#[verifier::ext_equal]
pub struct WantedText {
    pub call: Seq<char>,
    pub band: Seq<char>,
    pub mode: Seq<char>,
}

/// The contents of a [`Finding`].
#[verifier::ext_equal]
pub struct FindingText {
    pub cache_key: Seq<char>,
    pub call: Seq<char>,
    pub country: Seq<char>,
    pub status: Seq<char>,
}

impl View for Wanted {
    type V = WantedText;

    open spec fn view(&self) -> WantedText {
        WantedText { call: self.call@, band: self.band@, mode: self.mode@ }
    }
}

impl View for Finding {
    type V = FindingText;

    open spec fn view(&self) -> FindingText {
        FindingText {
            cache_key: self.cache_key@,
            call: self.call@,
            country: self.country@,
            status: self.status@,
        }
    }
}

/// The key under which a finding is kept.
pub open spec fn cache_key(call: Seq<char>, band: Seq<char>, mode: Seq<char>) -> Seq<char> {
    call + "|"@ + band + "|"@ + mode
}

pub fn make_cache_key(call: &str, band: &str, mode: &str) -> (r: String)
    ensures
        r@ == cache_key(call@, band@, mode@),
{
    let mut r = call.to_owned();
    r.append("|");
    r.append(band);
    r.append("|");
    r.append(mode);
    r
}

impl WantedText {
    pub open spec fn key(self) -> Seq<char> {
        cache_key(self.call, self.band, self.mode)
    }

    pub open spec fn finding(self, country: Seq<char>, status: Seq<char>) -> FindingText {
        FindingText { cache_key: self.key(), call: self.call, country, status }
    }
}

/// A batch of questions under way: the answers so far, and the countries that the log has named.
pub struct LookupBatch {
    pub client: N3fjpClient,
    pub items: Vec<Wanted>,
    pub findings: Vec<Finding>,
    pub countries: StringHashMap<String>,
}

/// The next question of a batch.
pub enum LookupStep {
    /// Ask for the country of the call.
    Country(String),
    /// Ask whether the country is wanted.
    Atno(String),
    Done,
}

impl LookupBatch {
    /// There is one answer for each question that was asked, in order; the countries have names.
    pub open spec fn wf(&self) -> bool {
        &&& self.findings@.len() <= self.items@.len()
        &&& forall|i: int|
            0 <= i < self.findings@.len() ==> (#[trigger] self.findings@[i])@.cache_key == self.items@[i]@.key()
                && self.findings@[i]@.call == self.items@[i]@.call
        &&& forall|call: Seq<char>| #[trigger]
            self.countries@.contains_key(call) ==> self.countries@[call]@.len() > 0
    }

    /// How many questions were answered.
    pub open spec fn answered(&self) -> nat {
        self.findings@.len()
    }

    /// The question under way.
    pub open spec fn item(&self) -> WantedText {
        self.items@[self.answered() as int]@
    }

    /// Everything but the findings and the countries stays.
    pub open spec fn same_items(&self, other: &LookupBatch) -> bool {
        self.items == other.items && self.client == other.client
    }

    /// The answer to the question under way was added, and nothing else.
    pub open spec fn answers(&self, other: &LookupBatch, country: Seq<char>, status: Seq<char>) -> bool {
        &&& self.findings@.len() == other.findings@.len() + 1
        &&& self.findings@.drop_last() == other.findings@
        &&& self.findings@.last()@ == other.item().finding(country, status)
        &&& self.countries@ == other.countries@
    }

    pub fn new(client: N3fjpClient, items: Vec<Wanted>) -> (r: LookupBatch)
        ensures
            r.wf(),
            r.client == client,
            r.items == items,
            r.answered() == 0,
            r.countries@ == Map::<Seq<char>, String>::empty(),
    {
        LookupBatch { client, items, findings: Vec::new(), countries: StringHashMap::new() }
    }

    /// The question to ask next. A country that was named before is not asked for again.
    pub fn step(&self) -> (r: LookupStep)
        requires
            self.wf(),
        ensures
            match r {
                LookupStep::Done => self.answered() == self.items@.len(),
                LookupStep::Country(cmd) => self.answered() < self.items@.len() && !self.countries@.contains_key(
                    self.item().call,
                ) && cmd@ == country_text(self.item().call),
                LookupStep::Atno(cmd) => self.answered() < self.items@.len() && self.countries@.contains_key(
                    self.item().call,
                ) && cmd@ == atno_text(
                    self.countries@[self.item().call]@,
                    self.item().band,
                    self.item().mode,
                ),
            },
    {
        let n = self.findings.len();
        if n >= self.items.len() {
            return LookupStep::Done;
        }
        let item = &self.items[n];
        match self.countries.get(item.call.as_str()) {
            Some(country) => LookupStep::Atno(
                self.client.check_atno(country.as_str(), item.band.as_str(), item.mode.as_str()),
            ),
            None => LookupStep::Country(self.client.country_lookup(item.call.as_str())),
        }
    }

    fn push(&mut self, country: String, status: String)
        requires
            old(self).wf(),
            old(self).answered() < old(self).items@.len(),
        ensures
            final(self).wf(),
            final(self).same_items(old(self)),
            final(self).answers(old(self), country@, status@),
    {
        let n = self.findings.len();
        let item = &self.items[n];
        let key = make_cache_key(item.call.as_str(), item.band.as_str(), item.mode.as_str());
        let call = item.call.clone();
        self.findings.push(Finding { cache_key: key, call, country, status });
        proof {
            assert(self.findings@.drop_last() =~= old(self).findings@);
            assert forall|i: int| 0 <= i < self.findings@.len() implies (#[trigger] self.findings@[i])@.cache_key
                == self.items@[i]@.key() && self.findings@[i]@.call == self.items@[i]@.call by {
                if i < n {
                    assert(self.findings@[i] == old(self).findings@[i]);
                }
            }
        }
    }

    /// Takes the answer to a question for a country. An answer without a country, or none at all, is
    /// noted as `ERR`.
    pub fn take_country(&mut self, reply: Result<String, String>)
        requires
            old(self).wf(),
            old(self).answered() < old(self).items@.len(),
        ensures
            final(self).wf(),
            final(self).same_items(old(self)),
            match reply {
                Err(_) => final(self).answers(old(self), Seq::empty(), "ERR"@),
                Ok(text) => if country_in(text@).len() == 0 {
                    final(self).answers(old(self), Seq::empty(), "ERR"@)
                } else {
                    &&& final(self).findings == old(self).findings
                    &&& final(self).countries@.dom() == old(self).countries@.dom().insert(old(self).item().call)
                    &&& final(self).countries@[old(self).item().call]@ == country_in(text@)
                    &&& forall|call: Seq<char>|
                        call != old(self).item().call && old(self).countries@.contains_key(call)
                            ==> #[trigger] final(self).countries@[call] == old(self).countries@[call]
                },
            },
    {
        let empty = String::new();
        proof {
            assert(empty@ =~= Seq::<char>::empty());
        }
        match reply {
            Err(_) => {
                self.push(empty, "ERR".to_owned());
            },
            Ok(text) => match self.client.country_found(text.as_str()) {
                Ok((country, _)) => {
                    let n = self.findings.len();
                    let call = self.items[n].call.clone();
                    let ghost before = self.countries@;
                    self.countries.insert(call, country);
                    proof {
                        assert(self.countries@.dom() =~= before.dom().insert(call@));
                    }
                },
                Err(_) => {
                    self.push(empty, "ERR".to_owned());
                },
            },
        }
    }

    /// Takes the answer to a question whether a country is wanted. An answer without a status that the
    /// log can give, or none at all, is noted as `ERR`.
    pub fn take_atno(&mut self, reply: Result<String, String>)
        requires
            old(self).wf(),
            old(self).answered() < old(self).items@.len(),
            old(self).countries@.contains_key(old(self).item().call),
        ensures
            final(self).wf(),
            final(self).same_items(old(self)),
            final(self).answers(
                old(self),
                old(self).countries@[old(self).item().call]@,
                match reply {
                    Ok(text) if is_status(atno_in(text@)) => atno_in(text@),
                    _ => "ERR"@,
                },
            ),
    {
        let status = match reply {
            Err(_) => "ERR".to_owned(),
            Ok(text) => match self.client.atno_found(text.as_str()) {
                Ok(status) => status,
                Err(_) => "ERR".to_owned(),
            },
        };
        let n = self.findings.len();
        let country = match self.countries.get(self.items[n].call.as_str()) {
            Some(c) => c.clone(),
            None => String::new(),
        };
        self.push(country, status);
    }
}

/// When a batch is done there is one finding for each question, in the order of the questions.
pub proof fn law_batch_answers_all(batch: LookupBatch)
    requires
        batch.wf(),
        batch.answered() == batch.items@.len(),
    ensures
        batch.findings@.len() == batch.items@.len(),
        forall|i: int|
            0 <= i < batch.items@.len() ==> (#[trigger] batch.findings@[i])@.cache_key == batch.items@[i]@.key(),
{
}

} // verus!
