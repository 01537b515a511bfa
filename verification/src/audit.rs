//! The audit trail: a bounded, append-only record of mutation attempts
//! with FIFO eviction at capacity, an insertion-ordered snapshot, and an
//! explicit retention sweep.

use vstd::prelude::*;

verus! {

/// Capacity of the bounded audit trail.
pub const MAX_AUDIT_LOGS: usize = 1000;

/// What kind of operation an entry records.
#[derive(Debug, Clone, Copy, PartialEq, Eq)]
pub enum AuditAction {
    ConfigUpdate,
    FileUpload,
    Login,
    Logout,
    ResetConfig,
    PreviewToggle,
    AutoSaveToggle,
}

/// One recorded mutation attempt. The timestamp counts milliseconds since
/// the Unix epoch.
#[derive(Debug, PartialEq, Eq)]
pub struct AuditLog {
    pub timestamp: i64,
    pub action: AuditAction,
    pub user: String,
    pub details: String,
    pub ip_address: Option<String>,
    pub success: bool,
}

/// The mathematical shape of one entry.
pub struct AuditLogView {
    pub timestamp: i64,
    pub action: AuditAction,
    pub user: Seq<char>,
    pub details: Seq<char>,
    pub ip_address: Option<Seq<char>>,
    pub success: bool,
}

impl View for AuditLog {
    type V = AuditLogView;

    open spec fn view(&self) -> AuditLogView {
        AuditLogView {
            timestamp: self.timestamp,
            action: self.action,
            user: self.user@,
            details: self.details@,
            ip_address: match &self.ip_address {
                Some(s) => Some(s@),
                None => None,
            },
            success: self.success,
        }
    }
}

impl Clone for AuditLog {
    fn clone(&self) -> (r: Self)
        ensures
            r == *self,
    {
        AuditLog {
            timestamp: self.timestamp,
            action: self.action,
            user: self.user.clone(),
            details: self.details.clone(),
            ip_address: match &self.ip_address {
                Some(s) => Some(s.clone()),
                None => None,
            },
            success: self.success,
        }
    }
}

pub open spec fn audit_view(s: Seq<AuditLog>) -> Seq<AuditLogView> {
    s.map_values(|e: AuditLog| e@)
}

/// One bounded append: at capacity the oldest entry is evicted first.
pub open spec fn bounded_push(log: Seq<AuditLogView>, e: AuditLogView) -> Seq<AuditLogView> {
    if log.len() >= MAX_AUDIT_LOGS {
        log.subrange(1, log.len() as int).push(e)
    } else {
        log.push(e)
    }
}

/// The bounded, append-only audit trail.
pub struct AuditTrail {
    entries: Vec<AuditLog>,
}

impl View for AuditTrail {
    type V = Seq<AuditLogView>;

    closed spec fn view(&self) -> Seq<AuditLogView> {
        audit_view(self.entries@)
    }
}

impl AuditTrail {
    pub closed spec fn wf(&self) -> bool {
        self.entries@.len() <= MAX_AUDIT_LOGS
    }

    pub fn new() -> (r: Self)
        ensures
            r.wf(),
            r@ == Seq::<AuditLogView>::empty(),
    {
        let r = AuditTrail { entries: Vec::new() };
        proof {
            assert(r@ =~= Seq::<AuditLogView>::empty());
        }
        r
    }

    /// The trail never outgrows its capacity: a well-formed trail holds at
    /// most `MAX_AUDIT_LOGS` entries.
    pub proof fn lemma_len_bounded(&self)
        requires
            self.wf(),
        ensures
            self@.len() <= MAX_AUDIT_LOGS,
    {
    }

    /// Records one mutation attempt. At capacity, the oldest entry is
    /// evicted before the new one is appended.
    pub fn log_audit(
        &mut self,
        action: AuditAction,
        user: &str,
        details: &str,
        ip_address: Option<String>,
        success: bool,
        timestamp: i64,
    )
        requires
            old(self).wf(),
        ensures
            final(self).wf(),
            final(self)@ == bounded_push(
                old(self)@,
                AuditLogView {
                    timestamp,
                    action,
                    user: user@,
                    details: details@,
                    ip_address: match ip_address {
                        Some(s) => Some(s@),
                        None => None,
                    },
                    success,
                },
            ),
    {
        let ghost prev = self.entries@;
        if self.entries.len() >= MAX_AUDIT_LOGS {
            let _ = self.entries.remove(0);
            proof {
                assert(audit_view(self.entries@) =~= audit_view(prev).subrange(
                    1,
                    prev.len() as int,
                ));
            }
        }
        let ghost mid = self.entries@;
        let entry = AuditLog {
            timestamp,
            action,
            user: user.to_owned(),
            details: details.to_owned(),
            ip_address,
            success,
        };
        self.entries.push(entry);
        proof {
            assert(audit_view(self.entries@) =~~= audit_view(mid).push(
                self.entries@.last()@,
            ));
        }
    }

    /// An insertion-ordered copy of the current contents; never a live
    /// view, so a reader cannot race a concurrent append.
    pub fn get_audit_logs(&self) -> (r: Vec<AuditLog>)
        ensures
            audit_view(r@) == self@,
    {
        let n = self.entries.len();
        let mut out: Vec<AuditLog> = Vec::new();
        let mut i: usize = 0;
        while i < n
            invariant
                0 <= i <= n,
                n == self.entries@.len(),
                out@ == self.entries@.take(i as int),
            decreases n - i,
        {
            out.push(self.entries[i].clone());
            i += 1;
            proof {
                assert(out@ =~= self.entries@.take(i as int));
            }
        }
        proof {
            assert(self.entries@.take(n as int) =~= self.entries@);
        }
        out
    }

    /// The number of entries currently held.
    pub fn len(&self) -> (r: usize)
        ensures
            r == self@.len(),
    {
        self.entries.len()
    }

    /// Drops every entry at or before `cutoff`, as an explicit retention
    /// sweep distinct from capacity-driven eviction.
    pub fn cleanup_audit_logs(&mut self, cutoff: i64)
        requires
            old(self).wf(),
        ensures
            final(self).wf(),
            final(self)@ == old(self)@.filter(|e: AuditLogView| e.timestamp > cutoff),
    {
        let ghost v = audit_view(self.entries@);
        let n = self.entries.len();
        let mut out: Vec<AuditLog> = Vec::new();
        let mut i: usize = 0;
        proof {
            reveal(Seq::filter);
            assert(v.take(0) =~= Seq::<AuditLogView>::empty());
            assert(audit_view(out@) =~= v.take(0).filter(|e: AuditLogView| e.timestamp > cutoff));
        }
        while i < n
            invariant
                0 <= i <= n,
                n == self.entries@.len(),
                v == audit_view(self.entries@),
                audit_view(out@) == v.take(i as int).filter(
                    |e: AuditLogView| e.timestamp > cutoff,
                ),
            decreases n - i,
        {
            if self.entries[i].timestamp > cutoff {
                out.push(self.entries[i].clone());
            }
            i += 1;
            proof {
                reveal(Seq::filter);
                let tk = v.take(i as int);
                assert(tk.drop_last() =~= v.take(i as int - 1));
                assert(tk.last() == v[i - 1]);
                assert(v[i - 1] == self.entries@[i - 1]@);
                assert(audit_view(out@) =~~= tk.filter(|e: AuditLogView| e.timestamp > cutoff));
            }
        }
        proof {
            reveal(Seq::filter);
            assert(v.take(n as int) =~= v);
            v.lemma_filter_len(|e: AuditLogView| e.timestamp > cutoff);
        }
        self.entries = out;
    }
}

/// The trail contents after the first `k` entries of `es` are appended,
/// in order, to `log`.
pub open spec fn appended(log: Seq<AuditLogView>, es: Seq<AuditLogView>, k: int) -> Seq<
    AuditLogView,
>
    decreases k,
{
    if k <= 0 {
        log
    } else {
        bounded_push(appended(log, es, k - 1), es[k - 1])
    }
}

proof fn lemma_appends_fill(es: Seq<AuditLogView>, k: int)
    requires
        0 <= k <= es.len(),
        k <= MAX_AUDIT_LOGS,
    ensures
        appended(Seq::empty(), es, k) == es.take(k),
    decreases k,
{
    if k <= 0 {
        assert(appended(Seq::empty(), es, 0) =~= es.take(0));
    } else {
        lemma_appends_fill(es, k - 1);
        assert(es.take(k - 1).push(es[k - 1]) =~= es.take(k));
    }
}

/// Appending one entry more than the capacity, starting from an empty
/// trail, leaves exactly the capacity's worth: the very first entry is
/// gone and the rest stand in insertion order.
pub proof fn lemma_capacity_evicts_oldest(es: Seq<AuditLogView>)
    requires
        es.len() == MAX_AUDIT_LOGS + 1,
    ensures
        appended(Seq::empty(), es, es.len() as int) == es.subrange(1, es.len() as int),
{
    let cap = MAX_AUDIT_LOGS as int;
    lemma_appends_fill(es, cap);
    assert(appended(Seq::empty(), es, cap + 1) == bounded_push(es.take(cap), es[cap]));
    assert(es.take(cap).subrange(1, cap).push(es[cap]) =~= es.subrange(1, cap + 1));
}

} // verus!
