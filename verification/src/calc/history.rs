//! The history of evaluated lines, bounded to a fixed number of the most recent ones.
use vstd::prelude::*;
use vstd::string::StringExecFns;

verus! {

/// One evaluated line: what was typed, what it gave, an error if there was
/// one, and when it was added (seconds since the Unix epoch).
#[derive(Debug)]
pub struct Entry {
    pub expression: String,
    pub result: String,
    pub err: Option<String>,
    pub at: i64,
}

/// An entry as a mathematical value.
pub struct EntryView {
    pub expression: Seq<char>,
    pub result: Seq<char>,
    pub err: Option<Seq<char>>,
    pub at: i64,
}

impl Entry {
    pub open spec fn view(&self) -> EntryView {
        EntryView {
            expression: self.expression@,
            result: self.result@,
            err: match self.err {
                Some(e) => Some(e@),
                None => None,
            },
            at: self.at,
        }
    }
}

impl Clone for Entry {
    fn clone(&self) -> (r: Self)
        ensures
            r == *self,
    {
        let err = match &self.err {
            Some(e) => Some(e.clone()),
            None => None,
        };
        Entry {
            expression: self.expression.clone(),
            result: self.result.clone(),
            err,
            at: self.at,
        }
    }
}

/// The views of a sequence of entries.
pub open spec fn entry_views(es: Seq<Entry>) -> Seq<EntryView> {
    es.map_values(|e: Entry| e@)
}

/// The last `n` items of `s`, or all of them when there are no more than `n`.
pub open spec fn keep_last<A>(s: Seq<A>, n: nat) -> Seq<A> {
    if s.len() > n {
        s.subrange(s.len() - n, s.len() as int)
    } else {
        s
    }
}

/// The entry made of the given parts.
pub open spec fn entry_of(expression: Seq<char>, result: Seq<char>, err: Option<Seq<char>>, at: i64) -> EntryView {
    EntryView { expression, result, err, at }
}

/// The view of an optional text.
pub open spec fn opt_view(o: Option<String>) -> Option<Seq<char>> {
    match o {
        Some(s) => Some(s@),
        None => None,
    }
}

/// Reads the clock: the whole seconds since the Unix epoch
/// (`SystemTime::now().duration_since(UNIX_EPOCH)`, then `as_secs`), or
/// `None` when the clock is set before the epoch. Nothing is said of the
/// reading: it is whatever the clock shows.
#[verifier::external_body]
fn clock_secs_since_epoch() -> (r: Option<u64>) {
    match std::time::SystemTime::now().duration_since(std::time::UNIX_EPOCH) {
        Ok(elapsed) => Some(elapsed.as_secs()),
        Err(_) => None,
    }
}

/// The time stamp for a clock reading: its seconds as an `i64`, or 0 when
/// there is none.
pub open spec fn stamp_of_spec(reading: Option<u64>) -> i64 {
    match reading {
        Some(secs) => secs as i64,
        None => 0,
    }
}

/// The time stamp for a clock reading: its seconds as an `i64` (wrapping as
/// `as` does), or 0 when the clock is set before the epoch.
pub fn stamp_of(reading: Option<u64>) -> (at: i64)
    ensures
        reading is None ==> at == 0,
        reading matches Some(secs) ==> at == secs as i64,
        at == stamp_of_spec(reading),
{
    match reading {
        Some(secs) => secs as i64,
        None => 0,
    }
}

/// The evaluated lines, oldest first, never more than the limit.
#[derive(Debug)]
pub struct History {
    entries: Vec<Entry>,
    limit: usize,
}

impl Clone for History {
    fn clone(&self) -> (r: Self)
        ensures
            r@ == self@,
            r.limit() == self.limit(),
    {
        proof {
            use_type_invariant(self);
        }
        let entries = self.entries.clone();
        assert(entries@ =~= self.entries@);
        History { entries, limit: self.limit }
    }
}

impl History {
    /// The entries, oldest first.
    pub closed spec fn view(&self) -> Seq<EntryView> {
        entry_views(self.entries@)
    }

    /// How many entries the history keeps at most.
    pub closed spec fn limit(&self) -> nat {
        self.limit as nat
    }

    #[verifier::type_invariant]
    spec fn within_limit(&self) -> bool {
        self.entries@.len() <= self.limit
    }

    /// An empty history that keeps at most `limit` entries.
    pub fn new(limit: usize) -> (r: Self)
        ensures
            r@ == Seq::<EntryView>::empty(),
            r.limit() == limit,
    {
        let r = History { entries: Vec::new(), limit };
        assert(r@ =~= Seq::<EntryView>::empty());
        r
    }

    /// Adds an entry stamped with the current time, then drops the oldest
    /// entries beyond the limit.
    pub fn add(&mut self, expr: &str, result: &str, err: Option<String>)
        ensures
            final(self).limit() == old(self).limit(),
            final(self)@.len() <= final(self).limit(),
            exists|reading: Option<u64>|
                final(self)@ == keep_last(
                    old(self)@.push(entry_of(expr@, result@, opt_view(err), stamp_of_spec(reading))),
                    old(self).limit(),
                ),
    {
        let reading = clock_secs_since_epoch();
        let at = stamp_of(reading);
        let ghost err_view = opt_view(err);
        self.add_at(expr, result, err, at);
        assert(self@ == keep_last(
            old(self)@.push(entry_of(expr@, result@, err_view, stamp_of_spec(reading))),
            old(self).limit(),
        ));
    }

    /// Adds an entry stamped `at`, then drops the oldest entries beyond the limit.
    pub fn add_at(&mut self, expr: &str, result: &str, err: Option<String>, at: i64)
        ensures
            final(self).limit() == old(self).limit(),
            final(self)@.len() <= final(self).limit(),
            final(self)@ == keep_last(
                old(self)@.push(entry_of(expr@, result@, opt_view(err), at)),
                old(self).limit(),
            ),
    {
        proof {
            use_type_invariant(&*self);
        }
        let ghost err_view = opt_view(err);
        let entry = Entry {
            expression: String::from_str(expr),
            result: String::from_str(result),
            err,
            at,
        };
        let ghost old_view = self@;
        let mut entries: Vec<Entry> = Vec::new();
        std::mem::swap(&mut entries, &mut self.entries);
        assert(entry_views(entries@) == old_view);
        entries.push(entry);
        assert(entry_views(entries@) =~= old_view.push(entry_of(expr@, result@, err_view, at)));
        if entries.len() > self.limit {
            let start = entries.len() - self.limit;
            let ghost all = entries@;
            entries = entries.split_off(start);
            assert(entry_views(entries@) =~= entry_views(all).subrange(start as int, all.len() as int));
        }
        self.entries = entries;
        proof {
            use_type_invariant(&*self);
        }
    }

    /// The entries, oldest first.
    pub fn entries(&self) -> (r: &[Entry])
        ensures
            entry_views(r@) == self@,
    {
        self.entries.as_slice()
    }

    /// How many entries there are.
    pub fn len(&self) -> (r: usize)
        ensures
            r == self@.len(),
    {
        self.entries.len()
    }

    /// Replaces the entries by the given ones, keeping only the newest ones
    /// within the limit.
    pub fn load_entries(&mut self, entries: Vec<Entry>)
        ensures
            final(self).limit() == old(self).limit(),
            final(self)@.len() <= final(self).limit(),
            final(self)@ == keep_last(entry_views(entries@), old(self).limit()),
    {
        let mut entries = entries;
        if entries.len() > self.limit {
            let start = entries.len() - self.limit;
            let ghost all = entries@;
            entries = entries.split_off(start);
            assert(entry_views(entries@) =~= entry_views(all).subrange(start as int, all.len() as int));
        }
        self.entries = entries;
    }

    /// A copy of the entries, oldest first.
    pub fn to_vec(&self) -> (r: Vec<Entry>)
        ensures
            entry_views(r@) == self@,
    {
        let r = self.entries.clone();
        assert(r@ =~= self.entries@);
        r
    }
}


/// Adding to a history that has room for at least one entry: the new entry
/// becomes the newest, the limit holds, and before it stand the previous
/// entries, less the oldest one when the history was full.
pub proof fn law_add_keeps_newest<A>(s: Seq<A>, e: A, n: nat)
    requires
        n > 0,
        s.len() <= n,
    ensures
        keep_last(s.push(e), n).len() <= n,
        keep_last(s.push(e), n).last() == e,
        keep_last(s.push(e), n).drop_last() == keep_last(s, (n - 1) as nat),
{
    let r = keep_last(s.push(e), n);
    if s.len() == n {
        assert(r.drop_last() =~= s.subrange(s.len() - (n - 1), s.len() as int));
    } else {
        assert(r.drop_last() =~= s);
    }
}


/// What a history holding `start` holds after each of `es` is added in turn,
/// keeping at most `n`.
pub open spec fn after_additions<A>(start: Seq<A>, es: Seq<A>, n: nat) -> Seq<A>
    decreases es.len(),
{
    if es.len() == 0 {
        start
    } else {
        keep_last(after_additions(start, es.drop_last(), n).push(es.last()), n)
    }
}

proof fn lemma_keep_last_push<A>(x: Seq<A>, e: A, n: nat)
    ensures
        keep_last(keep_last(x, n).push(e), n) == keep_last(x.push(e), n),
{
    let l = x.len();
    if l > n {
        assert(keep_last(keep_last(x, n).push(e), n) =~= keep_last(x.push(e), n));
    }
}

/// Adding entries one after another to a history within its limit leaves
/// the newest of all of them, at most the limit, oldest first.
pub proof fn law_additions_keep_newest<A>(start: Seq<A>, es: Seq<A>, n: nat)
    requires
        start.len() <= n,
    ensures
        after_additions(start, es, n) == keep_last(start + es, n),
    decreases es.len(),
{
    if es.len() == 0 {
        assert(start + es =~= start);
    } else {
        law_additions_keep_newest(start, es.drop_last(), n);
        lemma_keep_last_push(start + es.drop_last(), es.last(), n);
        assert((start + es.drop_last()).push(es.last()) =~= start + es);
    }
}

/// Adding no more entries than the limit to an empty history leaves exactly
/// those entries, oldest first.
pub proof fn law_additions_within_limit<A>(es: Seq<A>, n: nat)
    requires
        es.len() <= n,
    ensures
        after_additions(Seq::<A>::empty(), es, n) == es,
{
    law_additions_keep_newest(Seq::<A>::empty(), es, n);
    assert(Seq::<A>::empty() + es =~= es);
}

} // verus!
