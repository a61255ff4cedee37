//! The decisions behind the application's commands and its inbox watcher:
//! the active mailbox, which new mail has already been announced, how an
//! announcement reads, and batches of passwords.  The application performs
//! the requests, timers and notifications these decisions call for.
use crate::mailtm::{
    account_provider, lemma_decimal_digits, lemma_occurs_first, provider_name, provider_of,
    status_message, MailAccount, MailSummary, Provider,
};
use crate::password::{
    acceptable, all_draws_missed, drawn_candidate, draws_always_cover, generate_password,
    options_error, PasswordError, PasswordOptions,
};
use crate::text::{
    append, chars_of, contains_seq, decimal, decimal_chars, occurs_at, str_contains, str_eq, str_views, string_from_chars,
};
use vstd::prelude::*;

verus! {

/// How many announced message ids are remembered.
pub const NOTIFIED_CAP: usize = 200;

/// The largest batch of passwords generated at once.
pub const MAX_BATCH: usize = 100;

/// The state the application keeps: the active mailbox and the ids of the
/// messages already announced, oldest first.
#[derive(Debug)]
pub struct AppState {
    pub account: Option<MailAccount>,
    pub notified: Vec<String>,
}

/// The message when no mailbox is active.
pub open spec fn no_account_message() -> Seq<char> {
    "Chua co dia chi email nao, hay tao mot dia chi truoc"@
}

/// The ids remembered after going through `msgs` in order: an id not yet
/// remembered is appended.
pub open spec fn seen_after(seen: Seq<Seq<char>>, msgs: Seq<MailSummary>) -> Seq<Seq<char>>
    decreases msgs.len(),
{
    if msgs.len() == 0 {
        seen
    } else {
        let s = seen_after(seen, msgs.drop_last());
        if s.contains(msgs.last().id@) {
            s
        } else {
            s.push(msgs.last().id@)
        }
    }
}

/// The messages of `msgs` whose ids were not remembered when their turn came.
pub open spec fn fresh_of(seen: Seq<Seq<char>>, msgs: Seq<MailSummary>) -> Seq<MailSummary>
    decreases msgs.len(),
{
    if msgs.len() == 0 {
        seq![]
    } else {
        let f = fresh_of(seen, msgs.drop_last());
        if seen_after(seen, msgs.drop_last()).contains(msgs.last().id@) {
            f
        } else {
            f.push(msgs.last())
        }
    }
}

/// The most recent `NOTIFIED_CAP` ids.
pub open spec fn capped(s: Seq<Seq<char>>) -> Seq<Seq<char>> {
    if s.len() > NOTIFIED_CAP {
        s.skip(s.len() - NOTIFIED_CAP)
    } else {
        s
    }
}

/// An error message that says the session has expired, which calls for
/// logging in again with the stored password.
pub open spec fn expired_message(err: Seq<char>) -> bool {
    contains_seq(err, "hết hạn"@)
}

/// Who an announcement names: the sender's name, or the address when the
/// name is empty.
pub open spec fn sender_label(m: MailSummary) -> Seq<char> {
    if m.from_name@.len() == 0 {
        m.from_address@
    } else {
        m.from_name@
    }
}

/// The title of the announcement of a new message.
pub open spec fn notification_title(m: MailSummary) -> Seq<char> {
    "Thư mới từ "@ + sender_label(m)
}

/// The body of the announcement: the code before the subject when there is one.
pub open spec fn notification_body(m: MailSummary) -> Seq<char> {
    match m.otp {
        Some(code) => "Mã: "@ + code@ + " — "@ + m.subject@,
        None => m.subject@,
    }
}

/// The number of passwords in a batch: the requested count, kept within
/// 1..=`MAX_BATCH`.
pub open spec fn batch_size(count: usize) -> int {
    if count < 1 {
        1
    } else if count > MAX_BATCH {
        MAX_BATCH as int
    } else {
        count as int
    }
}

/// The line that reports a working connection.
pub open spec fn connection_line(domains: Seq<Seq<char>>) -> Seq<char> {
    "Ket noi tot — "@ + decimal(domains.len()) + " domain kha dung (vi du: "@ + domains[0] + ")"@
}

/// An exact copy of an optional string.
fn copy_opt(o: &Option<String>) -> (r: Option<String>)
    ensures
        r == *o,
{
    match o {
        Some(s) => Some(s.clone()),
        None => None,
    }
}

/// An exact copy of an inbox line.
pub fn copy_summary(m: &MailSummary) -> (r: MailSummary)
    ensures
        r == *m,
{
    MailSummary {
        id: m.id.clone(),
        from_name: m.from_name.clone(),
        from_address: m.from_address.clone(),
        subject: m.subject.clone(),
        intro: m.intro.clone(),
        seen: m.seen,
        created_at: m.created_at.clone(),
        has_attachments: m.has_attachments,
        otp: copy_opt(&m.otp),
    }
}

impl Default for AppState {
    /// No mailbox, nothing announced.
    fn default() -> (s: AppState)
        ensures
            s.account is None,
            s.notified@.len() == 0,
    {
        AppState::new()
    }
}

/// Whether `x` is among the strings of `v`.
fn has_string(v: &Vec<String>, x: &String) -> (r: bool)
    ensures
        r == str_views(v@).contains(x@),
{
    let mut k: usize = 0;
    while k < v.len()
        invariant
            k <= v@.len(),
            forall|j: int| 0 <= j < k ==> v@[j]@ != x@,
        decreases v@.len() - k,
    {
        if v[k] == *x {
            assert(str_views(v@)[k as int] == x@);
            return true;
        }
        k = k + 1;
    }
    assert forall|j: int| 0 <= j < v@.len() implies str_views(v@)[j] != x@ by {
        assert(str_views(v@)[j] == v@[j]@);
    }
    false
}

impl AppState {
    /// No mailbox, nothing announced.
    pub fn new() -> (s: AppState)
        ensures
            s.account is None,
            s.notified@.len() == 0,
    {
        AppState { account: None, notified: Vec::new() }
    }

    /// The session token of the active mailbox.
    pub fn token_of(&self) -> (r: Result<String, String>)
        ensures
            match self.account {
                Some(a) => r == Ok::<String, String>(a.token),
                None => r matches Err(m) && m@ == no_account_message(),
            },
    {
        match &self.account {
            Some(a) => Ok(a.token.clone()),
            None => Err(crate::mailtm::err("Chua co dia chi email nao, hay tao mot dia chi truoc")),
        }
    }

    /// Makes `acc` the active mailbox; nothing of it has been announced yet.
    pub fn activate(&mut self, acc: MailAccount)
        ensures
            final(self).account == Some(acc),
            final(self).notified@.len() == 0,
    {
        self.account = Some(acc);
        self.notified = Vec::new();
    }

    /// The provider and session token of the active mailbox, which every
    /// call for it goes through.
    pub fn credentials(&self) -> (r: Result<(Provider, String), String>)
        ensures
            match self.account {
                Some(a) => r == Ok::<(Provider, String), String>((account_provider(a), a.token)),
                None => r matches Err(m) && m@ == no_account_message(),
            },
    {
        match &self.account {
            Some(a) => Ok((provider_of(a), a.token.clone())),
            None => Err(crate::mailtm::err("Chua co dia chi email nao, hay tao mot dia chi truoc")),
        }
    }

    /// The provider, session token and id of the active mailbox, which
    /// deleting the mailbox needs; `None` when no mailbox is active.
    pub fn destroy_target(&self) -> (r: Option<(Provider, String, String)>)
        ensures
            match self.account {
                Some(a) => r == Some((account_provider(a), a.token, a.id)),
                None => r is None,
            },
    {
        match &self.account {
            Some(a) => Some((provider_of(a), a.token.clone(), a.id.clone())),
            None => None,
        }
    }

    /// Forgets the active mailbox.
    pub fn clear_account(&mut self)
        ensures
            final(self).account is None,
            final(self).notified == old(self).notified,
    {
        self.account = None;
    }

    /// Stores a new session token, but only if the active mailbox is still
    /// the one at `address`.
    pub fn refresh_token(&mut self, address: &str, token: String)
        ensures
            final(self).notified == old(self).notified,
            match old(self).account {
                Some(a) => if a.address@ == address@ {
                    final(self).account == Some(MailAccount { token: token, ..a })
                } else {
                    final(self).account == old(self).account
                },
                None => final(self).account is None,
            },
    {
        match &mut self.account {
            Some(cur) => {
                let same = cur.address.as_str().len() == address.len() && str_eq(
                    cur.address.as_str(),
                    address,
                );
                if same {
                    cur.token = token;
                }
            },
            None => {},
        }
    }

    /// Remembers the ids of the listed messages and returns the messages
    /// not announced before, in order; only the `NOTIFIED_CAP` most recent
    /// ids are kept.
    pub fn register_fresh(&mut self, messages: &Vec<MailSummary>) -> (fresh: Vec<MailSummary>)
        ensures
            final(self).account == old(self).account,
            str_views(final(self).notified@) == capped(
                seen_after(str_views(old(self).notified@), messages@),
            ),
            fresh@ == fresh_of(str_views(old(self).notified@), messages@),
    {
        let ghost seen0 = str_views(self.notified@);
        let mut fresh: Vec<MailSummary> = Vec::new();
        let mut k: usize = 0;
        assert(messages@.take(0) =~= Seq::<MailSummary>::empty());
        while k < messages.len()
            invariant
                k <= messages@.len(),
                str_views(self.notified@) == seen_after(seen0, messages@.take(k as int)),
                fresh@ == fresh_of(seen0, messages@.take(k as int)),
                self.account == old(self).account,
            decreases messages@.len() - k,
        {
            let ghost pre = messages@.take(k as int);
            assert(messages@.take(k + 1).drop_last() =~= pre);
            assert(messages@.take(k + 1).last() == messages@[k as int]);
            let m = &messages[k];
            if !has_string(&self.notified, &m.id) {
                let ghost before = str_views(self.notified@);
                self.notified.push(m.id.clone());
                assert(str_views(self.notified@) =~= before.push(m.id@));
                fresh.push(copy_summary(m));
            }
            k = k + 1;
        }
        assert(messages@.take(messages@.len() as int) =~= messages@);
        if self.notified.len() > NOTIFIED_CAP {
            let cut = self.notified.len() - NOTIFIED_CAP;
            let ghost all = str_views(self.notified@);
            let mut kept: Vec<String> = Vec::new();
            let mut j: usize = cut;
            while j < self.notified.len()
                invariant
                    cut <= j <= self.notified@.len(),
                    all == str_views(self.notified@),
                    str_views(kept@) == all.subrange(cut as int, j as int),
                decreases self.notified@.len() - j,
            {
                let ghost before = str_views(kept@);
                kept.push(self.notified[j].clone());
                assert(str_views(kept@) =~= before.push(all[j as int]));
                assert(all.subrange(cut as int, j + 1) =~= all.subrange(cut as int, j as int).push(
                    all[j as int],
                ));
                j = j + 1;
            }
            assert(all.subrange(cut as int, all.len() as int) =~= all.skip(cut as int));
            self.notified = kept;
        }
        fresh
    }
}

/// Whether an error from listing the inbox calls for logging in again.
pub fn session_expired(err: &str) -> (r: bool)
    ensures
        r == expired_message(err@),
{
    str_contains(err, "hết hạn")
}

/// Of the server messages, exactly the one for 401 (the session expired)
/// calls for logging in again.
pub proof fn lemma_expired_only_for_401(provider: Provider, code: u16)
    ensures
        expired_message(status_message(provider, code)) <==> code == 401,
{
    let p = "hết hạn"@;
    reveal_strlit("hết hạn");
    reveal_strlit("mail.tm");
    reveal_strlit("mail.gw");
    reveal_strlit(" đang giới hạn tốc độ, thử lại sau vài giây");
    reveal_strlit("Phiên đăng nhập hết hạn, hãy tạo địa chỉ mới");
    reveal_strlit("Không tìm thấy dữ liệu trên máy chủ");
    reveal_strlit("Máy chủ từ chối dữ liệu (địa chỉ đã tồn tại hoặc domain không hợp lệ)");
    reveal_strlit("Máy chủ trả về lỗi ");
    let m = status_message(provider, code);
    if code == 401 {
        assert(occurs_at(m, p, 16)) by {
            assert(m.subrange(16, 16 + p.len() as int) =~= p);
        }
    } else {
        assert forall|i: int| !occurs_at(m, p, i) by {
            if occurs_at(m, p, i) {
                lemma_occurs_first(m, p, i);
                if code == 429 {
                    let head = provider_name(provider);
                    let tail = " đang giới hạn tốc độ, thử lại sau vài giây"@;
                    if i < head.len() {
                        assert(m[i] == head[i]);
                    } else {
                        assert(m[i] == tail[i - head.len()]);
                        assert(m[i + 1] == tail[i + 1 - head.len()]);
                    }
                } else if code != 404 && code != 422 {
                    let head = "Máy chủ trả về lỗi "@;
                    lemma_decimal_digits(code as nat);
                    if i < head.len() {
                        assert(m[i] == head[i]);
                    } else {
                        assert(m[i] == decimal(code as nat)[i - head.len()]);
                    }
                }
            }
        }
    }
}

/// The title and body announcing a new message.
pub fn notification_for(m: &MailSummary) -> (r: (String, String))
    ensures
        r.0@ == notification_title(*m),
        r.1@ == notification_body(*m),
{
    let mut title = chars_of("Thư mới từ ");
    let name = chars_of(m.from_name.as_str());
    let from = if name.len() == 0 {
        chars_of(m.from_address.as_str())
    } else {
        name
    };
    append(&mut title, &from);
    let body = match &m.otp {
        Some(code) => {
            let mut b = chars_of("Mã: ");
            append(&mut b, &chars_of(code.as_str()));
            append(&mut b, &chars_of(" — "));
            append(&mut b, &chars_of(m.subject.as_str()));
            string_from_chars(&b)
        },
        None => m.subject.clone(),
    };
    (string_from_chars(&title), body)
}

/// The line reporting a working connection, naming the number of usable
/// domains and the first of them.
pub fn connection_summary(domains: &Vec<String>) -> (r: String)
    requires
        domains@.len() > 0,
    ensures
        r@ == connection_line(str_views(domains@)),
{
    let mut v = chars_of("Ket noi tot — ");
    append(&mut v, &decimal_chars(domains.len() as u64));
    append(&mut v, &chars_of(" domain kha dung (vi du: "));
    append(&mut v, &chars_of(domains[0].as_str()));
    append(&mut v, &chars_of(")"));
    string_from_chars(&v)
}

/// Several passwords for the same options: `count` kept within
/// 1..=`MAX_BATCH`, each generated on its own, stopping at the first failure.
pub fn generate_batch(options: &PasswordOptions, count: usize) -> (r: Result<Vec<String>, PasswordError>)
    ensures
        options_error(*options) matches Some(e) ==> r == Err::<Vec<String>, PasswordError>(e),
        options_error(*options) is None ==> match r {
            Ok(v) => v@.len() == batch_size(count) && forall|i: int|
                0 <= i < v@.len() ==> acceptable(*options, #[trigger] v@[i]@) && drawn_candidate(
                    *options,
                    v@[i]@,
                ),
            Err(e) => e == PasswordError::Unsatisfiable && exists|tried: Seq<Seq<char>>|
                #[trigger] all_draws_missed(*options, tried),
        },
        options_error(*options) is None && draws_always_cover(*options) ==> r is Ok,
{
    let n = if count < 1 {
        1
    } else if count > MAX_BATCH {
        MAX_BATCH
    } else {
        count
    };
    let mut out: Vec<String> = Vec::new();
    let mut k: usize = 0;
    while k < n
        invariant
            k <= n,
            n == batch_size(count),
            out@.len() == k,
            k > 0 ==> options_error(*options) is None,
            forall|i: int|
                0 <= i < k ==> acceptable(*options, #[trigger] out@[i]@) && drawn_candidate(
                    *options,
                    out@[i]@,
                ),
        decreases n - k,
    {
        match generate_password(options) {
            Ok(g) => {
                out.push(g.value);
            },
            Err(e) => {
                return Err(e);
            },
        }
        k = k + 1;
    }
    Ok(out)
}

// ---------------------------------------------------------------------------
// Laws of the announcement bookkeeping
// ---------------------------------------------------------------------------

/// Appending keeps what a sequence contains.
proof fn lemma_push_contains(s: Seq<Seq<char>>, y: Seq<char>, x: Seq<char>)
    requires
        s.contains(x),
    ensures
        s.push(y).contains(x),
{
    let i = choose|i: int| 0 <= i < s.len() && s[i] == x;
    assert(s.push(y)[i] == x);
}

/// Ids already remembered stay remembered.
pub proof fn lemma_seen_grows(seen: Seq<Seq<char>>, msgs: Seq<MailSummary>, x: Seq<char>)
    requires
        seen.contains(x),
    ensures
        seen_after(seen, msgs).contains(x),
    decreases msgs.len(),
{
    if msgs.len() > 0 {
        lemma_seen_grows(seen, msgs.drop_last(), x);
        let s = seen_after(seen, msgs.drop_last());
        if !s.contains(msgs.last().id@) {
            let i = choose|i: int| 0 <= i < s.len() && s[i] == x;
            assert(s.push(msgs.last().id@)[i] == x);
        }
    }
}

/// After going through the messages, the id of each of them is remembered.
pub proof fn lemma_seen_covers(seen: Seq<Seq<char>>, msgs: Seq<MailSummary>)
    ensures
        forall|i: int| 0 <= i < msgs.len() ==> seen_after(seen, msgs).contains(#[trigger] msgs[i].id@),
    decreases msgs.len(),
{
    if msgs.len() > 0 {
        let init = msgs.drop_last();
        lemma_seen_covers(seen, init);
        let s = seen_after(seen, init);
        let id = msgs.last().id@;
        assert forall|i: int| 0 <= i < msgs.len() implies seen_after(seen, msgs).contains(
            #[trigger] msgs[i].id@,
        ) by {
            if i < msgs.len() - 1 {
                assert(msgs[i] == init[i]);
                if !s.contains(id) {
                    lemma_push_contains(s, id, msgs[i].id@);
                }
            } else {
                if !s.contains(id) {
                    assert(s.push(id)[s.len() as int] == id);
                }
            }
        }
    }
}

/// No message is announced whose id was already remembered, and no id is
/// announced twice in one pass.
pub proof fn lemma_fresh_is_new(seen: Seq<Seq<char>>, msgs: Seq<MailSummary>)
    ensures
        forall|k: int|
            0 <= k < fresh_of(seen, msgs).len() ==> !seen.contains(
                #[trigger] fresh_of(seen, msgs)[k].id@,
            ),
        forall|k: int, l: int|
            0 <= k < l < fresh_of(seen, msgs).len() ==> #[trigger] fresh_of(seen, msgs)[k].id@
                != #[trigger] fresh_of(seen, msgs)[l].id@,
        forall|k: int|
            0 <= k < fresh_of(seen, msgs).len() ==> seen_after(seen, msgs).contains(
                #[trigger] fresh_of(seen, msgs)[k].id@,
            ),
    decreases msgs.len(),
{
    if msgs.len() > 0 {
        let init = msgs.drop_last();
        lemma_fresh_is_new(seen, init);
        let s = seen_after(seen, init);
        let f = fresh_of(seen, init);
        let m = msgs.last();
        if !s.contains(m.id@) {
            let g = f.push(m);
            assert(fresh_of(seen, msgs) == g);
            assert(seen_after(seen, msgs) == s.push(m.id@));
            assert forall|k: int| 0 <= k < g.len() implies !seen.contains(#[trigger] g[k].id@) by {
                if k == f.len() {
                    if seen.contains(m.id@) {
                        lemma_seen_grows(seen, init, m.id@);
                    }
                } else {
                    assert(g[k] == f[k]);
                }
            }
            assert forall|k: int, l: int| 0 <= k < l < g.len() implies #[trigger] g[k].id@
                != #[trigger] g[l].id@ by {
                if l == f.len() {
                    assert(g[k] == f[k]);
                    assert(s.contains(f[k].id@));
                } else {
                    assert(g[k] == f[k]);
                    assert(g[l] == f[l]);
                }
            }
            assert forall|k: int| 0 <= k < g.len() implies s.push(m.id@).contains(
                #[trigger] g[k].id@,
            ) by {
                if k == f.len() {
                    assert(s.push(m.id@)[s.len() as int] == m.id@);
                } else {
                    assert(g[k] == f[k]);
                    lemma_push_contains(s, m.id@, f[k].id@);
                }
            }
        }
    }
}

/// Messages whose ids are all remembered bring nothing fresh.
pub proof fn lemma_nothing_fresh(seen: Seq<Seq<char>>, msgs: Seq<MailSummary>)
    requires
        forall|i: int| 0 <= i < msgs.len() ==> seen.contains(#[trigger] msgs[i].id@),
    ensures
        fresh_of(seen, msgs).len() == 0,
    decreases msgs.len(),
{
    if msgs.len() > 0 {
        let init = msgs.drop_last();
        assert forall|i: int| 0 <= i < init.len() implies seen.contains(#[trigger] init[i].id@) by {
            assert(init[i] == msgs[i]);
        }
        lemma_nothing_fresh(seen, init);
        lemma_seen_grows(seen, init, msgs.last().id@);
    }
}

/// A message is announced once: going through the same inbox a second time
/// announces nothing, as long as the remembered ids fit within the cap.
pub proof fn lemma_announce_once(seen: Seq<Seq<char>>, msgs: Seq<MailSummary>)
    requires
        seen_after(seen, msgs).len() <= NOTIFIED_CAP,
    ensures
        fresh_of(capped(seen_after(seen, msgs)), msgs).len() == 0,
{
    lemma_seen_covers(seen, msgs);
    lemma_nothing_fresh(seen_after(seen, msgs), msgs);
}

} // verus!
