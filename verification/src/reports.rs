//! What waits to be sent or read between threads.
use vstd::prelude::*;
use vstd::std_specs::cmp::PartialEqSpec;

use crate::numbers;

verus! {

/// Settings as they were last received.
pub struct SettingsCache<T> {
    pub current: Option<T>,
}

/// Whether there is a value, and it equals another.
pub open spec fn equals<T: PartialEq>(current: Option<T>, other: T) -> bool {
    current matches Some(c) && c.eq_spec(&other)
}

/// What somebody who waits for other settings should do.
pub enum Wait<'a, T> {
    /// They have come.
    Changed(&'a T),
    /// The time is up.
    Due,
    /// Wait for news, but not longer than this.
    Sleep(u64),
}

impl<T> SettingsCache<T> {
    pub fn new() -> (r: SettingsCache<T>)
        ensures
            r.current is None,
    {
        SettingsCache { current: None }
    }

    /// The settings, once any were received.
    pub fn latest(&self) -> (r: Option<&T>)
        ensures
            match r {
                Some(s) => self.current == Some(*s),
                None => self.current is None,
            },
    {
        match &self.current {
            Some(s) => Some(s),
            None => None,
        }
    }

    /// The first settings, once they were received; those who wait for them go on
    /// waiting until then.
    pub fn wait_for_initial(&self) -> (r: Option<&T>)
        ensures
            match r {
                Some(s) => self.current == Some(*s),
                None => self.current is None,
            },
    {
        self.latest()
    }
}

impl<T: PartialEq> SettingsCache<T> {
    /// Keeps settings. Whether they differ from those before is handed back: only then
    /// is anybody to be woken. The first settings always do.
    pub fn publish(&mut self, settings: T) -> (r: bool)
        ensures
            T::obeys_eq_spec() ==> r == !equals(old(self).current, settings),
            old(self).current is None ==> r,
            r ==> final(self).current == Some(settings),
            !r ==> final(self).current == old(self).current,
    {
        let same = match &self.current {
            Some(c) => *c == settings,
            None => false,
        };
        if same {
            false
        } else {
            self.current = Some(settings);
            true
        }
    }

    /// What somebody should do who has `previous` and a sample due at `deadline`.
    pub fn wait_for_change_until<'a>(&'a self, previous: &T, now: u64, deadline: u64) -> (r: Wait<
        'a,
        T,
    >)
        ensures
            match r {
                Wait::Changed(s) => self.current == Some(*s),
                Wait::Due => now >= deadline,
                Wait::Sleep(n) => now < deadline && n == deadline - now,
            },
            T::obeys_eq_spec() ==> (r is Changed <==> self.current is Some && !equals(
                self.current,
                *previous,
            )),
    {
        match &self.current {
            Some(c) => {
                if !(*c == *previous) {
                    return Wait::Changed(c);
                }
            },
            None => {},
        }
        if now >= deadline {
            Wait::Due
        } else {
            Wait::Sleep(deadline - now)
        }
    }
}

/// The newest report that was not sent yet, and how many before it were replaced.
pub struct LatestReport<T> {
    pub report: Option<T>,
    pub dropped: u64,
}

/// What waits once a report is published: it, and one more that was replaced where one
/// was waiting.
pub open spec fn published<T>(waiting: (Option<T>, int), report: T) -> (Option<T>, int) {
    (
        Some(report),
        if waiting.0 is Some {
            waiting.1 + 1
        } else {
            waiting.1
        },
    )
}

impl<T> LatestReport<T> {
    pub fn new() -> (r: LatestReport<T>)
        ensures
            r.report is None,
            r.dropped == 0,
    {
        LatestReport { report: None, dropped: 0 }
    }

    /// Keeps a report in place of one that was not sent yet: what is out of date is not
    /// queued.
    pub fn publish(&mut self, report: T)
        ensures
            ({
                let waiting = published((old(self).report, old(self).dropped as int), report);
                final(self).report == waiting.0 && final(self).dropped == numbers::capped(waiting.1)
            }),
    {
        if self.report.is_some() {
            self.dropped = self.dropped.saturating_add(1);
        }
        self.report = Some(report);
    }

    /// Takes the report, with how many before it were replaced.
    pub fn try_take(&mut self) -> (r: Option<(T, u64)>)
        ensures
            match old(self).report {
                Some(report) => r == Some((report, old(self).dropped)) && final(self).dropped == 0,
                None => r is None && final(self).dropped == old(self).dropped,
            },
            final(self).report is None,
    {
        let mut taken: Option<T> = None;
        std::mem::swap(&mut taken, &mut self.report);
        match taken {
            Some(report) => {
                let dropped: u64 = self.dropped;
                self.dropped = 0;
                Some((report, dropped))
            },
            None => None,
        }
    }

    /// The same, for those who wait until there is a report.
    pub fn take(&mut self) -> (r: Option<(T, u64)>)
        ensures
            match old(self).report {
                Some(report) => r == Some((report, old(self).dropped)) && final(self).dropped == 0,
                None => r is None && final(self).dropped == old(self).dropped,
            },
            final(self).report is None,
    {
        self.try_take()
    }
}

/// What waits after reports were published one after the other.
pub open spec fn after_publishing<T>(reports: Seq<T>, waiting: (Option<T>, int)) -> (Option<T>, int)
    decreases reports.len(),
{
    if reports.len() == 0 {
        waiting
    } else {
        published(after_publishing(reports.drop_last(), waiting), reports.last())
    }
}

/// However many reports are published before one is taken, the newest comes out and
/// each of the others is counted.
pub proof fn lemma_newest_report_wins<T>(reports: Seq<T>)
    requires
        reports.len() > 0,
    ensures
        after_publishing(reports, (None, 0)) == (Some(reports.last()), reports.len() - 1),
    decreases reports.len(),
{
    if reports.len() > 1 {
        lemma_newest_report_wins(reports.drop_last());
    } else {
        assert(after_publishing(reports.drop_last(), (None::<T>, 0)) == (None::<T>, 0int));
    }
}

/// The queue of reports as it was last told of.
pub struct RuntimeReports<S> {
    pub last_spool: Option<S>,
}

impl<S: PartialEq> RuntimeReports<S> {
    /// Whether a queue in this state calls for a report on the runtime.
    pub fn publish_if_spool_changed(&self, current: &S) -> (r: bool)
        ensures
            S::obeys_eq_spec() ==> r == !equals(self.last_spool, *current),
            self.last_spool is None ==> r,
    {
        match &self.last_spool {
            Some(last) => !(*last == *current),
            None => true,
        }
    }

    /// Remembers the state of the queue that a report told of.
    pub fn publish_current(&mut self, spool: S)
        ensures
            final(self).last_spool == Some(spool),
    {
        self.last_spool = Some(spool);
    }
}

} // verus!
