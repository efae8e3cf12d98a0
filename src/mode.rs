use vstd::prelude::*;
use crate::fm::FileId;
use crate::purge::{Purge, Purges};
use crate::todo::Todo;
use crate::text::{decimal_text, number_text};
use vstd::string::StringExecFns;

verus! {

/// What a run does with the TODOs it finds.
#[derive(Copy, Clone, Debug, PartialEq, Eq, Structural)]
pub enum Mode {
    Purging,
    Listing,
    Reporting,
}

impl Mode {
    pub fn to_string_past(&self) -> (r: &'static str)
        ensures
            *self == Mode::Purging ==> r@ == "purged"@,
            *self == Mode::Reporting ==> r@ == "reported"@,
            *self == Mode::Listing ==> r@ == "listed"@,
    {
        match self {
            Mode::Purging => "purged",
            Mode::Reporting => "reported",
            Mode::Listing => "listed",
        }
    }

    pub fn to_string_present(&self) -> (r: &'static str)
        ensures
            *self == Mode::Purging ==> r@ == "purge"@,
            *self == Mode::Reporting ==> r@ == "report"@,
            *self == Mode::Listing ==> r@ == "list"@,
    {
        match self {
            Mode::Purging => "purge",
            Mode::Reporting => "report",
            Mode::Listing => "list",
        }
    }

    /// The closing summary: `[no todoʼs to <mode>]` when nothing was found,
    /// else `[<processed>/<found>] todoʼs <mode in the past>`.
    pub fn finish_msg(&self, found: u64, processed: u64) -> (r: String)
        ensures
            found == 0 ==> r@ == "[no todoʼs to "@ + self.present_text() + "]"@,
            found != 0 ==> r@ == "["@ + decimal_text(processed as nat) + "/"@ + decimal_text(
                found as nat,
            ) + "] todoʼs "@ + self.past_text(),
    {
        if found == 0 {
            let s = String::from_str("[no todoʼs to ");
            let s = s.concat(self.to_string_present());
            s.concat("]")
        } else {
            let s = String::from_str("[");
            let p = number_text(processed);
            let s = s.concat(p.as_str());
            let s = s.concat("/");
            let f = number_text(found);
            let s = s.concat(f.as_str());
            let s = s.concat("] todoʼs ");
            s.concat(self.to_string_past())
        }
    }

    pub open spec fn present_text(&self) -> Seq<char> {
        match self {
            Mode::Purging => "purge"@,
            Mode::Reporting => "report"@,
            Mode::Listing => "list"@,
        }
    }

    pub open spec fn past_text(&self) -> Seq<char> {
        match self {
            Mode::Purging => "purged"@,
            Mode::Reporting => "reported"@,
            Mode::Listing => "listed"@,
        }
    }

    pub fn to_string_actioning(&self) -> (r: &'static str)
        ensures
            *self == Mode::Purging ==> r@ == "purging"@,
            *self == Mode::Reporting ==> r@ == "reporting"@,
            *self == Mode::Listing ==> r@ == "listing"@,
    {
        match self {
            Mode::Purging => "purging",
            Mode::Reporting => "reporting",
            Mode::Listing => "listing",
        }
    }
}

/// The findings of one file, in the shape that the mode asks for.
pub enum ModeValue {
    Reporting(Vec<Todo>),
    Purging(Purges),
    Listing(Vec<Todo>),
}

/// Whether a batch has the shape of the given mode.
pub open spec fn value_has_mode(v: ModeValue, mode: Mode) -> bool {
    match v {
        ModeValue::Reporting(_) => mode == Mode::Reporting,
        ModeValue::Purging(_) => mode == Mode::Purging,
        ModeValue::Listing(_) => mode == Mode::Listing,
    }
}

/// Number of findings in a batch.
pub open spec fn value_len(v: ModeValue) -> nat {
    match v {
        ModeValue::Reporting(t) => t@.len(),
        ModeValue::Purging(p) => p.purges@.len(),
        ModeValue::Listing(t) => t@.len(),
    }
}

impl ModeValue {
    /// An empty batch for the mode.
    pub fn new(mode: Mode, file_id: FileId) -> (r: ModeValue)
        ensures
            value_has_mode(r, mode),
            value_len(r) == 0,
            r matches ModeValue::Purging(p) ==> p.file_id == file_id,
    {
        match mode {
            Mode::Purging => ModeValue::Purging(Purges::with_capacity(4, file_id)),
            Mode::Reporting => ModeValue::Reporting(Vec::with_capacity(4)),
            Mode::Listing => ModeValue::Listing(Vec::with_capacity(4)),
        }
    }

    pub fn is_empty(&self) -> (r: bool)
        ensures
            r == (value_len(*self) == 0),
    {
        match self {
            ModeValue::Purging(v) => v.purges.len() == 0,
            ModeValue::Reporting(v) => v.len() == 0,
            ModeValue::Listing(v) => v.len() == 0,
        }
    }

    /// Adds a purge to a purging batch.
    pub fn push_purge(&mut self, purge: Purge)
        requires
            *old(self) is Purging,
        ensures
            *final(self) matches ModeValue::Purging(p) && *old(self) matches ModeValue::Purging(q)
                && p.file_id == q.file_id && p.purges@ == q.purges@.push(purge),
    {
        match self {
            ModeValue::Purging(ps) => ps.purges.push(purge),
            _ => {},
        }
    }

    /// Adds a TODO to a reporting or listing batch.
    pub fn push_todo(&mut self, todo: Todo)
        requires
            !(*old(self) is Purging),
        ensures
            *old(self) is Reporting ==> (*final(self) matches ModeValue::Reporting(v) && *old(
                self,
            ) matches ModeValue::Reporting(u) && v@ == u@.push(todo)),
            *old(self) is Listing ==> (*final(self) matches ModeValue::Listing(v) && *old(
                self,
            ) matches ModeValue::Listing(u) && v@ == u@.push(todo)),
    {
        match self {
            ModeValue::Reporting(todos) => todos.push(todo),
            ModeValue::Listing(todos) => todos.push(todo),
            _ => {},
        }
    }
}

/// The run's two counters: TODOs found, and actions completed. Found only
/// grows, and never falls behind processed.
pub struct Progress {
    found: u64,
    processed: u64,
}

impl Progress {
    pub closed spec fn found_count(&self) -> nat {
        self.found as nat
    }

    pub closed spec fn processed_count(&self) -> nat {
        self.processed as nat
    }

    #[verifier::type_invariant]
    spec fn inv(&self) -> bool {
        self.processed <= self.found
    }

    pub fn new() -> (r: Progress)
        ensures
            r.found_count() == 0,
            r.processed_count() == 0,
    {
        Progress { found: 0, processed: 0 }
    }

    pub fn found(&self) -> (r: u64)
        ensures
            r == self.found_count(),
            self.processed_count() <= self.found_count(),
    {
        proof {
            use_type_invariant(self);
        }
        self.found
    }

    pub fn processed(&self) -> (r: u64)
        ensures
            r == self.processed_count(),
            self.processed_count() <= self.found_count(),
    {
        proof {
            use_type_invariant(self);
        }
        self.processed
    }

    /// Counts `n` more TODOs found (saturating at the largest count).
    pub fn add_found(&mut self, n: u64)
        ensures
            final(self).found_count() == if old(self).found_count() + n <= u64::MAX {
                old(self).found_count() + n
            } else {
                u64::MAX as int
            },
            final(self).found_count() >= old(self).found_count(),
            final(self).processed_count() == old(self).processed_count(),
    {
        proof {
            use_type_invariant(&*self);
        }
        self.found = self.found.saturating_add(n);
    }

    /// Counts what a scanned file adds to the found TODOs: every TODO of a
    /// reporting or listing batch; nothing for purges, which count once the
    /// tracker says their issue is closed.
    pub fn count_found(&mut self, v: &ModeValue)
        ensures
            final(self).found_count() == if v is Purging || old(self).found_count() + value_len(
                *v,
            ) > u64::MAX {
                if v is Purging {
                    old(self).found_count() as int
                } else {
                    u64::MAX as int
                }
            } else {
                (old(self).found_count() + value_len(*v)) as int
            },
            final(self).found_count() >= old(self).found_count(),
            final(self).processed_count() == old(self).processed_count(),
    {
        match v {
            ModeValue::Reporting(t) => self.add_found(t.len() as u64),
            ModeValue::Listing(t) => self.add_found(t.len() as u64),
            ModeValue::Purging(_) => {},
        }
    }

    /// Counts `n` more actions done; refused (and false) when that would
    /// pass the found count.
    pub fn add_processed(&mut self, n: u64) -> (r: bool)
        ensures
            r == (old(self).processed_count() + n <= old(self).found_count()),
            r ==> final(self).processed_count() == old(self).processed_count() + n,
            !r ==> final(self).processed_count() == old(self).processed_count(),
            final(self).found_count() == old(self).found_count(),
    {
        proof {
            use_type_invariant(&*self);
        }
        if n <= self.found - self.processed {
            self.processed = self.processed + n;
            true
        } else {
            false
        }
    }
}

} // verus!
