//! The approval router: correlates each pending local request with the
//! decision of a remote approver, or with its deadline.

use crate::bindings::{
    bind_spec,
    bindings_wf,
    is_listed,
    lemma_untrusted_sender_not_bound,
    listed,
    opt_text,
    targets_spec,
    texts,
    BindOutcome,
    BindingStore,
    BindingsView,
};
use crate::tag::{parse_tag, parse_tag_spec, Decision};
use vstd::prelude::*;

verus! {

/// A request that waits for an approver's decision.
pub struct PendingApproval {
    pub token: u64,
    pub appname: String,
    pub method: String,
    /// The connection that the answer goes back to.
    pub reply_to: u64,
    /// When the request came in, in seconds.
    pub created_at: u64,
}

pub struct PendingView {
    pub token: u64,
    pub appname: Seq<char>,
    pub method: Seq<char>,
    pub reply_to: u64,
    pub created_at: u64,
}

impl View for PendingApproval {
    type V = PendingView;

    open spec fn view(&self) -> PendingView {
        PendingView {
            token: self.token,
            appname: self.appname@,
            method: self.method@,
            reply_to: self.reply_to,
            created_at: self.created_at,
        }
    }
}

impl PendingApproval {
    fn copy(&self) -> (r: PendingApproval)
        ensures
            r@ == self@,
    {
        PendingApproval {
            token: self.token,
            appname: self.appname.clone(),
            method: self.method.clone(),
            reply_to: self.reply_to,
            created_at: self.created_at,
        }
    }
}

/// An answer to send on a connection.
#[derive(Debug, Clone, Copy, PartialEq, Eq, Structural)]
pub struct Reply {
    pub conn: u64,
    pub decision: Decision,
}

/// Why a request was denied without asking anyone.
#[derive(Debug, Clone, Copy, PartialEq, Eq, Structural)]
pub enum PolicyError {
    /// The application is not trusted.
    UntrustedApp,
    /// No trusted approver can be reached.
    NoApprover,
    /// Every token has been handed out.
    TokensExhausted,
}

/// What became of a submitted request.
#[derive(Debug, Clone, PartialEq, Eq)]
pub enum Submission {
    /// Denied at once; the answer is `DENY`.
    Denied(PolicyError),
    /// Waits under `token`; a prompt goes to each of `targets`.
    Notify { token: u64, targets: Vec<i64> },
}

pub enum SubmissionView {
    Denied(PolicyError),
    Notify { token: u64, targets: Seq<i64> },
}

pub open spec fn submission_view(s: Submission) -> SubmissionView {
    match s {
        Submission::Denied(e) => SubmissionView::Denied(e),
        Submission::Notify { token, targets } => SubmissionView::Notify { token, targets: targets@ },
    }
}

pub struct RouterView {
    pub trusted_apps: Seq<Seq<char>>,
    pub bindings: BindingsView,
    pub pending: Seq<PendingView>,
    pub next_token: u64,
    pub timeout: u64,
}

/// Tokens of waiting requests rise strictly, so no two are equal, and all
/// lie below the next token to be handed out.
pub open spec fn pending_wf(ps: Seq<PendingView>, next_token: u64) -> bool {
    &&& forall|i: int, j: int| 0 <= i < j < ps.len() ==> #[trigger] ps[i].token < #[trigger] ps[j].token
    &&& forall|i: int| 0 <= i < ps.len() ==> #[trigger] ps[i].token < next_token
}

pub open spec fn router_wf(v: RouterView) -> bool {
    &&& bindings_wf(v.bindings)
    &&& pending_wf(v.pending, v.next_token)
}

/// Entry `i` waits under `token`.
pub open spec fn waits_at(ps: Seq<PendingView>, token: u64, i: int) -> bool {
    0 <= i < ps.len() && ps[i].token == token
}

pub open spec fn has_token(ps: Seq<PendingView>, token: u64) -> bool {
    exists|i: int| waits_at(ps, token, i)
}

/// A request that arrives: denied at once where the application is not
/// trusted or no approver is bound; otherwise it waits under a fresh token
/// and every bound approver is prompted.
pub open spec fn submit_spec(
    v: RouterView,
    appname: Seq<char>,
    method: Seq<char>,
    reply_to: u64,
    now: u64,
) -> (RouterView, SubmissionView) {
    if !listed(v.trusted_apps, appname) {
        (v, SubmissionView::Denied(PolicyError::UntrustedApp))
    } else if v.bindings.entries.len() == 0 {
        (v, SubmissionView::Denied(PolicyError::NoApprover))
    } else if v.next_token == u64::MAX {
        (v, SubmissionView::Denied(PolicyError::TokensExhausted))
    } else {
        let p = PendingView { token: v.next_token, appname, method, reply_to, created_at: now };
        (
            RouterView {
                pending: v.pending.push(p),
                next_token: (v.next_token + 1) as u64,
                ..v
            },
            SubmissionView::Notify { token: v.next_token, targets: targets_spec(v.bindings) },
        )
    }
}

/// A decision callback: where its tag names a waiting request, that request
/// is answered and leaves; anything else changes nothing.
pub open spec fn decide_spec(v: RouterView, tag: Seq<u8>) -> (RouterView, Option<Reply>) {
    match parse_tag_spec(tag) {
        None => (v, None),
        Some((token, decision)) => if has_token(v.pending, token) {
            let i = choose|i: int| waits_at(v.pending, token, i);
            (
                RouterView { pending: v.pending.remove(i), ..v },
                Some(Reply { conn: v.pending[i].reply_to, decision }),
            )
        } else {
            (v, None)
        },
    }
}

/// A message from the messaging channel, handed to the binding store.
pub open spec fn message_spec(v: RouterView, identity: Option<Seq<char>>, target: i64) -> (
    RouterView,
    BindOutcome,
) {
    let (b, out) = bind_spec(v.bindings, identity, target);
    (RouterView { bindings: b, ..v }, out)
}

/// A request whose deadline has come.
pub open spec fn is_due(p: PendingView, now: u64, timeout: u64) -> bool {
    now as int >= p.created_at as int + timeout as int
}

/// The waiting requests whose deadline has not come, in order.
pub open spec fn kept(ps: Seq<PendingView>, now: u64, timeout: u64) -> Seq<PendingView>
    decreases ps.len(),
{
    if ps.len() == 0 {
        ps
    } else if is_due(ps.last(), now, timeout) {
        kept(ps.drop_last(), now, timeout)
    } else {
        kept(ps.drop_last(), now, timeout).push(ps.last())
    }
}

/// A `DENY` for each waiting request whose deadline has come, in order.
pub open spec fn fired(ps: Seq<PendingView>, now: u64, timeout: u64) -> Seq<Reply>
    decreases ps.len(),
{
    if ps.len() == 0 {
        Seq::empty()
    } else if is_due(ps.last(), now, timeout) {
        fired(ps.drop_last(), now, timeout).push(
            Reply { conn: ps.last().reply_to, decision: Decision::Deny },
        )
    } else {
        fired(ps.drop_last(), now, timeout)
    }
}

/// The clock reads `now`: every request whose deadline has come is denied
/// and leaves.
pub open spec fn expire_spec(v: RouterView, now: u64) -> (RouterView, Seq<Reply>) {
    (
        RouterView { pending: kept(v.pending, now, v.timeout), ..v },
        fired(v.pending, now, v.timeout),
    )
}

/// What is kept has not come due, comes from the given requests in order, and
/// keeps its tokens rising.
proof fn lemma_kept(ps: Seq<PendingView>, now: u64, timeout: u64, next_token: u64)
    requires
        pending_wf(ps, next_token),
    ensures
        pending_wf(kept(ps, now, timeout), next_token),
        forall|k: int|
            0 <= k < kept(ps, now, timeout).len() ==> !is_due(
                #[trigger] kept(ps, now, timeout)[k],
                now,
                timeout,
            ) && exists|j: int| 0 <= j < ps.len() && ps[j] == kept(ps, now, timeout)[k],
    decreases ps.len(),
{
    if ps.len() > 0 {
        let front = ps.drop_last();
        lemma_kept(front, now, timeout, next_token);
        let kf = kept(front, now, timeout);
        assert forall|k: int| 0 <= k < kf.len() implies exists|j: int|
            0 <= j < ps.len() && ps[j] == #[trigger] kf[k] by {
            let j = choose|j: int| 0 <= j < front.len() && front[j] == kf[k];
            assert(ps[j] == kf[k]);
        }
        if !is_due(ps.last(), now, timeout) {
            let kk = kf.push(ps.last());
            assert forall|a: int, b: int| 0 <= a < b < kk.len() implies #[trigger] kk[a].token
                < #[trigger] kk[b].token by {
                if b == kf.len() {
                    let j = choose|j: int| 0 <= j < front.len() && front[j] == kf[a];
                    assert(ps[j] == kf[a]);
                    assert(ps[j].token < ps[ps.len() - 1].token);
                } else {
                    assert(kf[a].token < kf[b].token);
                }
            }
            assert forall|k: int| 0 <= k < kk.len() implies exists|j: int|
                0 <= j < ps.len() && ps[j] == #[trigger] kk[k] by {
                if k == kf.len() {
                    assert(ps[ps.len() - 1] == kk[k]);
                } else {
                    assert(kk[k] == kf[k]);
                }
            }
        }
    }
}

/// Every request that has come due gets its `DENY`.
proof fn lemma_fired(ps: Seq<PendingView>, now: u64, timeout: u64, i: int)
    requires
        0 <= i < ps.len(),
        is_due(ps[i], now, timeout),
    ensures
        fired(ps, now, timeout).contains(Reply { conn: ps[i].reply_to, decision: Decision::Deny }),
    decreases ps.len(),
{
    let r = Reply { conn: ps[i].reply_to, decision: Decision::Deny };
    let f = fired(ps.drop_last(), now, timeout);
    if i == ps.len() - 1 {
        assert(fired(ps, now, timeout)[f.len() as int] == r);
    } else {
        lemma_fired(ps.drop_last(), now, timeout, i);
        let k = choose|k: int| 0 <= k < f.len() && f[k] == r;
        if is_due(ps.last(), now, timeout) {
            assert(fired(ps, now, timeout)[k] == r);
        }
    }
}

/// Answering the request at `i` keeps the invariant.
proof fn lemma_remove_keeps_wf(ps: Seq<PendingView>, next_token: u64, i: int)
    requires
        pending_wf(ps, next_token),
        0 <= i < ps.len(),
    ensures
        pending_wf(ps.remove(i), next_token),
        !has_token(ps.remove(i), ps[i].token),
{
    let r = ps.remove(i);
    assert forall|a: int, b: int| 0 <= a < b < r.len() implies #[trigger] r[a].token
        < #[trigger] r[b].token by {
        let a2 = if a < i { a } else { a + 1 };
        let b2 = if b < i { b } else { b + 1 };
        assert(r[a] == ps[a2] && r[b] == ps[b2]);
    }
    assert forall|k: int| 0 <= k < r.len() implies #[trigger] r[k].token < next_token by {
        let k2 = if k < i { k } else { k + 1 };
        assert(r[k] == ps[k2]);
    }
    if has_token(r, ps[i].token) {
        let k = choose|k: int| waits_at(r, ps[i].token, k);
        let k2 = if k < i { k } else { k + 1 };
        assert(r[k] == ps[k2]);
    }
}

/// The approval router and the identity bindings that it prompts.
pub struct Router {
    trusted_apps: Vec<String>,
    store: BindingStore,
    pending: Vec<PendingApproval>,
    next_token: u64,
    timeout: u64,
}

impl View for Router {
    type V = RouterView;

    closed spec fn view(&self) -> RouterView {
        RouterView {
            trusted_apps: texts(self.trusted_apps@),
            bindings: self.store@,
            pending: self.pending@.map_values(|p: PendingApproval| p@),
            next_token: self.next_token,
            timeout: self.timeout,
        }
    }
}

impl Router {
    /// A router for the given trusted applications and approvers, where a
    /// request that nobody answers is denied after `timeout` seconds.
    pub fn new(trusted_apps: Vec<String>, trusted_users: Vec<String>, timeout: u64) -> (r: Router)
        ensures
            r@.trusted_apps == texts(trusted_apps@),
            r@.bindings.trusted == texts(trusted_users@),
            r@.bindings.entries == Seq::<(Seq<char>, i64)>::empty(),
            r@.pending == Seq::<PendingView>::empty(),
            r@.next_token == 0,
            r@.timeout == timeout,
            router_wf(r@),
    {
        let r = Router {
            trusted_apps,
            store: BindingStore::new(trusted_users),
            pending: Vec::new(),
            next_token: 0,
            timeout,
        };
        assert(r@.pending =~= Seq::<PendingView>::empty());
        r
    }

    /// Handles a text message from `identity`, sent from chat `target`.
    pub fn bind(&mut self, identity: Option<String>, target: i64) -> (r: BindOutcome)
        requires
            router_wf(old(self)@),
        ensures
            (final(self)@, r) == message_spec(old(self)@, opt_text(identity), target),
            router_wf(final(self)@),
    {
        self.store.bind(identity, target)
    }

    /// Takes in a request from connection `reply_to`, at time `now`.
    pub fn submit(&mut self, appname: String, method: String, reply_to: u64, now: u64) -> (r:
        Submission)
        requires
            router_wf(old(self)@),
        ensures
            (final(self)@, submission_view(r)) == submit_spec(
                old(self)@,
                appname@,
                method@,
                reply_to,
                now,
            ),
            router_wf(final(self)@),
    {
        if !is_listed(&self.trusted_apps, &appname) {
            return Submission::Denied(PolicyError::UntrustedApp);
        }
        let targets = self.store.targets();
        if targets.len() == 0 {
            return Submission::Denied(PolicyError::NoApprover);
        }
        if self.next_token == u64::MAX {
            return Submission::Denied(PolicyError::TokensExhausted);
        }
        let token = self.next_token;
        let ghost before = self@;
        self.pending.push(PendingApproval { token, appname, method, reply_to, created_at: now });
        self.next_token = token + 1;
        assert(self@.pending =~= before.pending.push(
            PendingView { token, appname: appname@, method: method@, reply_to, created_at: now },
        ));
        Submission::Notify { token, targets }
    }

    /// Handles a decision callback carrying `tag`.
    pub fn decide(&mut self, tag: &[u8]) -> (r: Option<Reply>)
        requires
            router_wf(old(self)@),
        ensures
            (final(self)@, r) == decide_spec(old(self)@, tag@),
            router_wf(final(self)@),
    {
        let (token, decision) = match parse_tag(tag) {
            None => return None,
            Some(p) => p,
        };
        let ghost ps = self@.pending;
        let n = self.pending.len();
        let mut i: usize = 0;
        while i < n
            invariant
                n == self.pending@.len(),
                ps == self@.pending,
                0 <= i <= n,
                forall|k: int| 0 <= k < i ==> ps[k].token != token,
            ensures
                0 <= i <= n,
                i < n ==> ps[i as int].token == token,
                forall|k: int| 0 <= k < i ==> ps[k].token != token,
            decreases n - i,
        {
            if self.pending[i].token == token {
                break;
            }
            i = i + 1;
        }
        if i == n {
            assert(!has_token(ps, token));
            return None;
        }
        assert(waits_at(ps, token, i as int));
        let ghost c = choose|k: int| waits_at(ps, token, k);
        assert(c == i) by {
            if c < i {
                assert(ps[c].token < ps[i as int].token);
            } else if c > i {
                assert(ps[i as int].token < ps[c].token);
            }
        }
        let p = self.pending.remove(i);
        assert(self@.pending =~= ps.remove(i as int));
        proof {
            lemma_remove_keeps_wf(ps, self.next_token, i as int);
        }
        Some(Reply { conn: p.reply_to, decision })
    }

    /// The clock reads `now`: denies every request whose deadline has come.
    pub fn expire(&mut self, now: u64) -> (r: Vec<Reply>)
        requires
            router_wf(old(self)@),
        ensures
            (final(self)@, r@) == expire_spec(old(self)@, now),
            router_wf(final(self)@),
    {
        let ghost ps = self@.pending;
        let mut keep: Vec<PendingApproval> = Vec::new();
        let mut replies: Vec<Reply> = Vec::new();
        let mut i: usize = 0;
        while i < self.pending.len()
            invariant
                ps == self@.pending,
                self@ == old(self)@,
                0 <= i <= ps.len(),
                keep@.map_values(|p: PendingApproval| p@) == kept(
                    ps.subrange(0, i as int),
                    now,
                    self.timeout,
                ),
                replies@ == fired(ps.subrange(0, i as int), now, self.timeout),
            decreases ps.len() - i,
        {
            let p = &self.pending[i];
            let ghost front = ps.subrange(0, i as int);
            assert(ps.subrange(0, i + 1).drop_last() =~= front);
            assert(ps.subrange(0, i + 1).last() == p@);
            if now >= p.created_at && now - p.created_at >= self.timeout {
                replies.push(Reply { conn: p.reply_to, decision: Decision::Deny });
            } else {
                let ghost before = keep@.map_values(|q: PendingApproval| q@);
                keep.push(p.copy());
                assert(keep@.map_values(|q: PendingApproval| q@) =~= before.push(p@));
            }
            i = i + 1;
        }
        assert(ps.subrange(0, i as int) =~= ps);
        proof {
            lemma_kept(ps, now, self.timeout, self.next_token);
        }
        self.pending = keep;
        replies
    }

    /// How many requests are waiting.
    pub fn pending_count(&self) -> (r: usize)
        ensures
            r == self@.pending.len(),
    {
        self.pending.len()
    }

    /// Whether a request waits under `token`.
    pub fn is_pending(&self, token: u64) -> (r: bool)
        ensures
            r == has_token(self@.pending, token),
    {
        let mut i: usize = 0;
        while i < self.pending.len()
            invariant
                0 <= i <= self@.pending.len(),
                forall|k: int| 0 <= k < i ==> self@.pending[k].token != token,
            decreases self@.pending.len() - i,
        {
            if self.pending[i].token == token {
                assert(waits_at(self@.pending, token, i as int));
                return true;
            }
            i = i + 1;
        }
        false
    }
}

/// A decision callback for a token that has been answered changes nothing
/// and sends nothing: each token is answered at most once.
pub proof fn lemma_second_decision_ignored(v: RouterView, tag: Seq<u8>)
    requires
        router_wf(v),
    ensures
        decide_spec(decide_spec(v, tag).0, tag) == (decide_spec(v, tag).0, None::<Reply>),
{
    if let Some((token, d)) = parse_tag_spec(tag) {
        if has_token(v.pending, token) {
            let i = choose|i: int| waits_at(v.pending, token, i);
            lemma_remove_keeps_wf(v.pending, v.next_token, i);
        }
    }
}

/// With no approver bound, a request is denied, nothing is stored and
/// nobody is prompted.
pub proof fn lemma_no_binding_denies(
    v: RouterView,
    appname: Seq<char>,
    method: Seq<char>,
    reply_to: u64,
    now: u64,
)
    requires
        v.bindings.entries.len() == 0,
    ensures
        submit_spec(v, appname, method, reply_to, now).0 == v,
        submit_spec(v, appname, method, reply_to, now).1 is Denied,
{
}

/// A message from an untrusted sender is turned away and changes nothing,
/// and no prompt of a later request goes to a binding of theirs.
pub proof fn lemma_untrusted_never_prompted(
    v: RouterView,
    id: Seq<char>,
    target: i64,
    appname: Seq<char>,
    method: Seq<char>,
    reply_to: u64,
    now: u64,
)
    requires
        router_wf(v),
        !listed(v.bindings.trusted, id),
    ensures
        message_spec(v, Some(id), target) == (v, BindOutcome::Rejected),
        forall|i: int|
            0 <= i < v.bindings.entries.len() ==> #[trigger] v.bindings.entries[i].0 != id,
        submit_spec(v, appname, method, reply_to, now).1 matches SubmissionView::Notify {
            targets,
            ..
        } ==> targets == targets_spec(v.bindings),
{
    lemma_untrusted_sender_not_bound(v.bindings, id, target);
}

/// A request whose deadline has come is denied when the clock is read, it
/// leaves, and a decision that arrives for it later changes nothing.
pub proof fn lemma_expired_denied_then_ignored(v: RouterView, now: u64, i: int, d: Decision)
    requires
        router_wf(v),
        0 <= i < v.pending.len(),
        is_due(v.pending[i], now, v.timeout),
    ensures
        expire_spec(v, now).1.contains(Reply { conn: v.pending[i].reply_to, decision: Decision::Deny }),
        !has_token(expire_spec(v, now).0.pending, v.pending[i].token),
        decide_spec(expire_spec(v, now).0, crate::tag::tag_spec(v.pending[i].token, d)) == (
            expire_spec(v, now).0,
            None::<Reply>,
        ),
{
    let ps = v.pending;
    let t = ps[i].token;
    lemma_fired(ps, now, v.timeout, i);
    lemma_kept(ps, now, v.timeout, v.next_token);
    let k = kept(ps, now, v.timeout);
    if has_token(k, t) {
        let a = choose|a: int| waits_at(k, t, a);
        let j = choose|j: int| 0 <= j < ps.len() && ps[j] == k[a];
        if j < i {
            assert(ps[j].token < ps[i].token);
        } else if j > i {
            assert(ps[i].token < ps[j].token);
        }
    }
    crate::tag::lemma_tag_round_trip(t, d);
}

/// Every operation keeps the router's invariant.
pub proof fn lemma_operations_keep_wf(
    v: RouterView,
    appname: Seq<char>,
    method: Seq<char>,
    reply_to: u64,
    now: u64,
    tag: Seq<u8>,
)
    requires
        router_wf(v),
    ensures
        router_wf(submit_spec(v, appname, method, reply_to, now).0),
        router_wf(decide_spec(v, tag).0),
        router_wf(expire_spec(v, now).0),
{
    lemma_kept(v.pending, now, v.timeout, v.next_token);
    if let Some((token, d)) = parse_tag_spec(tag) {
        if has_token(v.pending, token) {
            let i = choose|i: int| waits_at(v.pending, token, i);
            lemma_remove_keeps_wf(v.pending, v.next_token, i);
        }
    }
}

} // verus!
