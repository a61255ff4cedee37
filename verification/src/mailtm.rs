//! The logic of the disposable-mail client for the mail.tm API, served by
//! mail.tm and, as a fallback, mail.gw: the values it exchanges, which
//! provider a call goes to, how server answers become messages, how mail is
//! summarised, how HTML mail becomes text and how one-time codes are
//! spotted.  The HTTP requests themselves are made by the application
//! around this library.
use crate::random::{
    draw_positions, os_rng, pick_chars, picked, positions_below, uniform_usize_inclusive,
};
use crate::text::{
    lemma_replaced_absent, lemma_replaced_head, lemma_replaced_lead, all_ascii, append, ascii_lower, chars_of, collapse_whitespace, contains, contains_seq, decimal, decimal_chars, join,
    joined, occurs_at, occurs_at_exec, owned, replace_all, replaced, str_contains, str_eq,
    str_views, string_from_chars, trim, trimmed, views, words_of,
};
use vstd::prelude::*;

verus! {

/// The address of the mail.tm API, the first provider tried.
pub const BASE: &'static str = "https://api.mail.tm";

/// The address of the mail.gw API, which runs the same code and is tried
/// when mail.tm fails.
pub const BASE_FALLBACK: &'static str = "https://api.mail.gw";

/// Runs of 4 to 8 digits standing as a word of their own.
pub const OTP_PATTERN: &'static str = r"\b(\d{4,8})\b";

/// Script and style elements with their content, comments, and any other
/// tag (the `regex` crate has no back-references, so each is spelled out).
pub const TAG_PATTERN: &'static str =
    r"(?is)<script[^>]*>.*?</script>|<style[^>]*>.*?</style>|<!--.*?-->|<[^>]+>";

/// Characters of generated mailbox names.
pub const LOCAL_ALPHABET: &'static str = "abcdefghijkmnopqrstuvwxyz23456789";

/// Characters of generated mailbox passwords.
pub const PASSWORD_ALPHABET: &'static str =
    "abcdefghijkmnopqrstuvwxyzABCDEFGHJKLMNPQRSTUVWXYZ23456789";

/// A mailbox: its id, address, password, session token, and the API
/// address of the provider that created it (an account of one provider
/// cannot log in at the other).
#[derive(Debug, Clone)]
pub struct MailAccount {
    pub id: String,
    pub address: String,
    pub password: String,
    pub token: String,
    pub base: String,
}

/// A disposable-mail service that speaks the mail.tm API.
#[derive(Debug, Clone, Copy, PartialEq, Eq, Structural)]
pub enum Provider {
    MailTm,
    MailGw,
}

/// The name of a provider, as messages show it.
pub open spec fn provider_name(p: Provider) -> Seq<char> {
    match p {
        Provider::MailTm => "mail.tm"@,
        Provider::MailGw => "mail.gw"@,
    }
}

/// The API address of a provider.
pub open spec fn provider_base(p: Provider) -> Seq<char> {
    match p {
        Provider::MailTm => BASE@,
        Provider::MailGw => BASE_FALLBACK@,
    }
}

/// The provider whose API address is `base`, if any.
pub open spec fn provider_at(base: Seq<char>) -> Option<Provider> {
    if base == BASE@ {
        Some(Provider::MailTm)
    } else if base == BASE_FALLBACK@ {
        Some(Provider::MailGw)
    } else {
        None
    }
}

/// The providers in the order they are tried.
pub open spec fn provider_order() -> Seq<Provider> {
    seq![Provider::MailTm, Provider::MailGw]
}

impl Provider {
    /// The name of the provider, as messages show it.
    pub fn name(&self) -> (r: &'static str)
        ensures
            r@ == provider_name(*self),
    {
        match self {
            Provider::MailTm => "mail.tm",
            Provider::MailGw => "mail.gw",
        }
    }

    /// The API address of the provider.
    pub fn base(&self) -> (r: &'static str)
        ensures
            r@ == provider_base(*self),
    {
        match self {
            Provider::MailTm => BASE,
            Provider::MailGw => BASE_FALLBACK,
        }
    }

    /// The provider whose API address is `base`, if any.
    pub fn from_base(base: &str) -> (r: Option<Provider>)
        ensures
            r == provider_at(base@),
    {
        if str_eq(base, BASE) {
            Some(Provider::MailTm)
        } else if str_eq(base, BASE_FALLBACK) {
            Some(Provider::MailGw)
        } else {
            None
        }
    }
}

/// The providers in the order they are tried: mail.tm, then mail.gw.
pub fn providers() -> (v: Vec<Provider>)
    ensures
        v@ == provider_order(),
{
    let mut v: Vec<Provider> = Vec::new();
    v.push(Provider::MailTm);
    v.push(Provider::MailGw);
    assert(v@ =~= provider_order());
    v
}

/// The providers to try for an account: the one recorded in `base`, or,
/// for an account that records none (or an unknown one), each in turn.
pub open spec fn providers_for_spec(base: Option<Seq<char>>) -> Seq<Provider> {
    match base {
        Some(b) => match provider_at(b) {
            Some(p) => seq![p],
            None => provider_order(),
        },
        None => provider_order(),
    }
}

/// The providers to try for an account: the one recorded in `base`, or,
/// for an account that records none (or an unknown one), each in turn.
pub fn providers_for(base: &Option<String>) -> (v: Vec<Provider>)
    ensures
        v@ == providers_for_spec(opt_view(*base)),
{
    match base {
        Some(b) => match Provider::from_base(b.as_str()) {
            Some(p) => {
                let mut v: Vec<Provider> = Vec::new();
                v.push(p);
                assert(v@ =~= seq![p]);
                v
            },
            None => providers(),
        },
        None => providers(),
    }
}

/// The provider of a stored account: the one its API address names, and
/// mail.tm, the only provider before addresses were recorded, otherwise.
pub open spec fn account_provider(acc: MailAccount) -> Provider {
    match provider_at(acc.base@) {
        Some(p) => p,
        None => Provider::MailTm,
    }
}

/// The provider of a stored account.
pub fn provider_of(acc: &MailAccount) -> (p: Provider)
    ensures
        p == account_provider(*acc),
{
    match Provider::from_base(acc.base.as_str()) {
        Some(p) => p,
        None => Provider::MailTm,
    }
}

/// One provider's failure, naming the provider.
pub open spec fn failure_line(p: Provider, err: Seq<char>) -> Seq<char> {
    provider_name(p) + ": "@ + err
}

/// The failures of several providers, one after the other.
pub open spec fn combined_failures(f: Seq<(Provider, Seq<char>)>) -> Seq<char> {
    joined(f.map_values(|x: (Provider, Seq<char>)| failure_line(x.0, x.1)), "; "@)
}

/// The reason to report when providers failed: a single provider's own
/// message as it is, or, when several failed, each reason after the name of
/// its provider, separated by "; ".
pub open spec fn failure_report(f: Seq<(Provider, Seq<char>)>) -> Seq<char> {
    if f.len() == 1 {
        f[0].1
    } else {
        combined_failures(f)
    }
}

/// The reason to report when providers failed.
pub fn report_failures(failures: &Vec<(Provider, String)>) -> (r: String)
    ensures
        r@ == failure_report(failures@.map_values(|x: (Provider, String)| (x.0, x.1@))),
{
    let ghost f = failures@.map_values(|x: (Provider, String)| (x.0, x.1@));
    if failures.len() == 1 {
        return failures[0].1.clone();
    }
    let mut parts: Vec<Vec<char>> = Vec::new();
    let mut k: usize = 0;
    while k < failures.len()
        invariant
            k <= failures@.len(),
            f == failures@.map_values(|x: (Provider, String)| (x.0, x.1@)),
            views(parts@) == f.map_values(|x: (Provider, Seq<char>)| failure_line(x.0, x.1)).take(
                k as int,
            ),
        decreases failures@.len() - k,
    {
        let ghost before = views(parts@);
        let mut line = chars_of(failures[k].0.name());
        append(&mut line, &chars_of(": "));
        append(&mut line, &chars_of(failures[k].1.as_str()));
        parts.push(line);
        assert(views(parts@) =~= before.push(failure_line(f[k as int].0, f[k as int].1)));
        k = k + 1;
        assert(views(parts@) =~= f.map_values(
            |x: (Provider, Seq<char>)| failure_line(x.0, x.1),
        ).take(k as int));
    }
    assert(f.map_values(|x: (Provider, Seq<char>)| failure_line(x.0, x.1)).take(
        failures@.len() as int,
    ) =~= f.map_values(|x: (Provider, Seq<char>)| failure_line(x.0, x.1)));
    let sep = chars_of("; ");
    string_from_chars(&join(&parts, &sep))
}

/// The failures recorded so far, each error by its view.
pub open spec fn failure_views(f: Seq<(Provider, String)>) -> Seq<(Provider, Seq<char>)> {
    f.map_values(|x: (Provider, String)| (x.0, x.1@))
}

/// What to do next while going through the providers.
#[derive(Debug, Clone)]
pub enum Attempt {
    /// Call this provider.
    Try(Provider),
    /// Every provider failed: report this reason.
    GiveUp(String),
}

/// The step after the failures `failed` of the providers `order`: the next
/// provider in order, or, once each has failed, the report of all failures.
pub open spec fn attempt_after(
    order: Seq<Provider>,
    failed: Seq<(Provider, Seq<char>)>,
    a: Attempt,
) -> bool {
    if failed.len() < order.len() {
        a == Attempt::Try(order[failed.len() as int])
    } else {
        a matches Attempt::GiveUp(m) && m@ == failure_report(failed)
    }
}

/// The failures after the provider now being tried failed with `err`: it
/// joins them, unless every provider had already failed.
pub open spec fn record_failure(
    order: Seq<Provider>,
    failed: Seq<(Provider, Seq<char>)>,
    err: Seq<char>,
) -> Seq<(Provider, Seq<char>)> {
    if failed.len() < order.len() {
        failed.push((order[failed.len() as int], err))
    } else {
        failed
    }
}

/// The failures after the errors `errs`, one after the other, starting from
/// none.
pub open spec fn failures_after(order: Seq<Provider>, errs: Seq<Seq<char>>) -> Seq<
    (Provider, Seq<char>),
>
    decreases errs.len(),
{
    if errs.len() == 0 {
        seq![]
    } else {
        record_failure(order, failures_after(order, errs.drop_last()), errs.last())
    }
}

/// Going through the providers in order until one answers, keeping each
/// failure with the provider that gave it.
#[derive(Debug, Clone)]
pub struct Fallback {
    pub order: Vec<Provider>,
    pub failures: Vec<(Provider, String)>,
}

impl Fallback {
    /// Nothing tried yet.
    pub fn new(order: Vec<Provider>) -> (f: Fallback)
        ensures
            f.order == order,
            f.failures@.len() == 0,
    {
        Fallback { order, failures: Vec::new() }
    }

    /// The provider to try now, or the report once every one has failed.
    pub fn next(&self) -> (a: Attempt)
        ensures
            attempt_after(self.order@, failure_views(self.failures@), a),
    {
        let k = self.failures.len();
        if k < self.order.len() {
            Attempt::Try(self.order[k])
        } else {
            Attempt::GiveUp(report_failures(&self.failures))
        }
    }

    /// Records that the provider being tried failed with `err`, and says
    /// what to do next.
    pub fn failed(&mut self, err: String) -> (a: Attempt)
        ensures
            final(self).order == old(self).order,
            failure_views(final(self).failures@) == record_failure(
                old(self).order@,
                failure_views(old(self).failures@),
                err@,
            ),
            attempt_after(final(self).order@, failure_views(final(self).failures@), a),
    {
        let k = self.failures.len();
        if k < self.order.len() {
            let p = self.order[k];
            let ghost before = failure_views(self.failures@);
            self.failures.push((p, err));
            assert(failure_views(self.failures@) =~= before.push((p, err@)));
        }
        self.next()
    }
}

/// Going through the providers: after the errors `errs` (no more than there
/// are providers), the failures are the providers in order, each with its
/// own error; the next step tries the provider after them, and once every
/// provider has failed it reports all of their errors, in order.
pub proof fn lemma_fallback_in_order(order: Seq<Provider>, errs: Seq<Seq<char>>)
    requires
        errs.len() <= order.len(),
    ensures
        failures_after(order, errs) == Seq::new(
            errs.len(),
            |k: int| (order[k], errs[k]),
        ),
        errs.len() < order.len() ==> forall|a: Attempt|
            attempt_after(order, failures_after(order, errs), a) ==> a == Attempt::Try(
                order[errs.len() as int],
            ),
        errs.len() == order.len() ==> forall|a: Attempt|
            #![trigger attempt_after(order, failures_after(order, errs), a)]
            attempt_after(order, failures_after(order, errs), a) ==> (a matches Attempt::GiveUp(
                m,
            ) && m@ == failure_report(Seq::new(errs.len(), |k: int| (order[k], errs[k])))),
    decreases errs.len(),
{
    if errs.len() > 0 {
        lemma_fallback_in_order(order, errs.drop_last());
        assert(failures_after(order, errs) =~= Seq::new(
            errs.len(),
            |k: int| (order[k], errs[k]),
        ));
    } else {
        assert(failures_after(order, errs) =~= Seq::new(
            errs.len(),
            |k: int| (order[k], errs[k]),
        ));
    }
}

/// One line of the inbox.
#[derive(Debug, Clone)]
pub struct MailSummary {
    pub id: String,
    pub from_name: String,
    pub from_address: String,
    pub subject: String,
    pub intro: String,
    pub seen: bool,
    pub created_at: String,
    pub has_attachments: bool,
    /// The one-time code guessed from the subject or the intro, if any.
    pub otp: Option<String>,
}

/// A whole message.
#[derive(Debug, Clone)]
pub struct MailDetail {
    pub id: String,
    pub subject: String,
    pub from_name: String,
    pub from_address: String,
    pub created_at: String,
    pub text: String,
    pub otp: Option<String>,
}

/// A domain as the API lists it.
#[derive(Debug, Clone)]
pub struct ApiDomain {
    pub domain: String,
    pub is_active: bool,
    pub is_private: bool,
}

/// A sender as the API gives it.
#[derive(Debug, Clone)]
pub struct ApiAddress {
    pub address: String,
    pub name: String,
}

/// An inbox entry as the API gives it.
#[derive(Debug, Clone)]
pub struct ApiMessage {
    pub id: String,
    pub from: Option<ApiAddress>,
    pub subject: String,
    pub intro: String,
    pub seen: bool,
    pub created_at: String,
    pub has_attachments: bool,
}

/// A whole message as the API gives it.
#[derive(Debug, Clone)]
pub struct ApiMessageDetail {
    pub id: String,
    pub from: Option<ApiAddress>,
    pub subject: String,
    pub created_at: String,
    pub text: String,
    pub html: Vec<String>,
}

// ---------------------------------------------------------------------------
// Outside functions
// ---------------------------------------------------------------------------

/// What regex's `Regex::new(pattern)` followed by
/// `replace_all(text, replacement)` gives: `None` when the pattern does not
/// compile, else the text with every match replaced.
pub uninterp spec fn regex_replace_all_of(
    pattern: Seq<char>,
    text: Seq<char>,
    replacement: Seq<char>,
) -> Option<Seq<char>>;

/// What regex's `Regex::new(pattern)` followed by `captures_iter(text)`
/// gives, each match taken to the text of its first group: `None` when the
/// pattern does not compile.
pub uninterp spec fn regex_first_groups_of(
    pattern: Seq<char>,
    text: Seq<char>,
) -> Option<Seq<Option<Seq<char>>>>;

/// What std's `str::to_lowercase` gives: the Unicode lowercase mapping.
pub uninterp spec fn lowercase_of(s: Seq<char>) -> Seq<char>;

/// What std's `char::is_alphanumeric` gives: Unicode alphabetic or numeric.
pub uninterp spec fn alphanumeric(c: char) -> bool;

/// The view of an optional string.
pub open spec fn opt_view(o: Option<String>) -> Option<Seq<char>> {
    match o {
        Some(s) => Some(s@),
        None => None,
    }
}

/// The views of optional strings.
pub open spec fn opt_views(v: Seq<Option<String>>) -> Seq<Option<Seq<char>>> {
    v.map_values(|o: Option<String>| opt_view(o))
}

/// regex: compiles `pattern` with `Regex::new` and replaces every match in
/// `text` by `replacement` with `replace_all`.  The result is only named:
/// the regex syntax and its Unicode classes take pages to state.
#[verifier::external_body]
fn regex_replace_all(pattern: &str, text: &str, replacement: &str) -> (r: Option<String>)
    ensures
        opt_view(r) == regex_replace_all_of(pattern@, text@, replacement@),
{
    match regex::Regex::new(pattern) {
        Ok(re) => Some(re.replace_all(text, replacement).into_owned()),
        Err(_) => None,
    }
}

/// regex: compiles `pattern` with `Regex::new` and lists, for every match
/// that `captures_iter(text)` yields, the text of its first group.  The
/// result is only named.
#[verifier::external_body]
fn regex_first_groups(pattern: &str, text: &str) -> (r: Option<Vec<Option<String>>>)
    ensures
        match r {
            Some(v) => regex_first_groups_of(pattern@, text@) == Some(opt_views(v@)),
            None => regex_first_groups_of(pattern@, text@) is None,
        },
{
    match regex::Regex::new(pattern) {
        Ok(re) => Some(
            re.captures_iter(text).map(|c| c.get(1).map(|m| m.as_str().to_string())).collect(),
        ),
        Err(_) => None,
    }
}

/// std's `str::to_lowercase`: the Unicode lowercase mapping.  Beyond the
/// name, the contract states the ASCII case: a string of ASCII characters
/// keeps its length and has 'A'..='Z' turned into 'a'..='z', every other
/// character unchanged.
#[verifier::external_body]
fn lowercase(s: &str) -> (r: String)
    ensures
        r@ == lowercase_of(s@),
        all_ascii(s@) ==> r@ == s@.map_values(|c: char| ascii_lower(c)),
{
    s.to_lowercase()
}

/// std's `char::is_alphanumeric`: Unicode alphabetic or numeric.  Beyond
/// the name, the contract states the ASCII case: among ASCII characters
/// exactly the letters and digits are alphanumeric.
#[verifier::external_body]
fn is_alphanumeric(c: char) -> (r: bool)
    ensures
        r == alphanumeric(c),
        c <= '\u{7f}' ==> (r <==> (('a' <= c && c <= 'z') || ('A' <= c && c <= 'Z') || ('0' <= c
            && c <= '9'))),
{
    c.is_alphanumeric()
}

// ---------------------------------------------------------------------------
// Messages and statuses
// ---------------------------------------------------------------------------

/// The full address of an API path such as `/domains?page=1` at a provider.
pub fn api_url(provider: Provider, path: &str) -> (url: String)
    ensures
        url@ == provider_base(provider) + path@,
{
    let mut v = chars_of(provider.base());
    let p = chars_of(path);
    append(&mut v, &p);
    string_from_chars(&v)
}

/// An error message from a text.
pub fn err(msg: &str) -> (r: String)
    ensures
        r@ == msg@,
{
    owned(msg)
}

/// The message for an HTTP status that a provider's server answered with.
pub open spec fn status_message(provider: Provider, code: u16) -> Seq<char> {
    if code == 429 {
        provider_name(provider) + " đang giới hạn tốc độ, thử lại sau vài giây"@
    } else if code == 401 {
        "Phiên đăng nhập hết hạn, hãy tạo địa chỉ mới"@
    } else if code == 404 {
        "Không tìm thấy dữ liệu trên máy chủ"@
    } else if code == 422 {
        "Máy chủ từ chối dữ liệu (địa chỉ đã tồn tại hoặc domain không hợp lệ)"@
    } else {
        "Máy chủ trả về lỗi "@ + decimal(code as nat)
    }
}

/// The message for an HTTP status that a provider's server answered with.
pub fn map_status(provider: Provider, code: u16) -> (m: String)
    ensures
        m@ == status_message(provider, code),
{
    if code == 429 {
        let mut v = chars_of(provider.name());
        append(&mut v, &chars_of(" đang giới hạn tốc độ, thử lại sau vài giây"));
        string_from_chars(&v)
    } else if code == 401 {
        err("Phiên đăng nhập hết hạn, hãy tạo địa chỉ mới")
    } else if code == 404 {
        err("Không tìm thấy dữ liệu trên máy chủ")
    } else if code == 422 {
        err("Máy chủ từ chối dữ liệu (địa chỉ đã tồn tại hoặc domain không hợp lệ)")
    } else {
        let mut v = chars_of("Máy chủ trả về lỗi ");
        let d = decimal_chars(code as u64);
        append(&mut v, &d);
        string_from_chars(&v)
    }
}

/// A 2xx status.
pub open spec fn is_success(code: u16) -> bool {
    200 <= code <= 299
}

/// `Ok` for a 2xx status, else the message for the status.
pub fn status_result(provider: Provider, code: u16) -> (r: Result<(), String>)
    ensures
        match r {
            Ok(_) => is_success(code),
            Err(m) => !is_success(code) && m@ == status_message(provider, code),
        },
{
    if 200 <= code && code <= 299 {
        Ok(())
    } else {
        Err(map_status(provider, code))
    }
}

/// The outcome of a deletion: `Ok` for a 2xx status or 204 No Content, else
/// the message for the status.
pub fn deletion_result(provider: Provider, code: u16) -> (r: Result<(), String>)
    ensures
        match r {
            Ok(_) => is_success(code) || code == 204,
            Err(m) => !(is_success(code) || code == 204) && m@ == status_message(provider, code),
        },
{
    if (200 <= code && code <= 299) || code == 204 {
        Ok(())
    } else {
        Err(map_status(provider, code))
    }
}

/// Whether a server message says that the address already exists.
pub fn resp_status_is_conflict(msg: &str) -> (r: bool)
    ensures
        r == contains_seq(msg@, "đã tồn tại"@),
{
    str_contains(msg, "đã tồn tại")
}

// ---------------------------------------------------------------------------
// Random names and passwords
// ---------------------------------------------------------------------------

/// Every character of `s` is in `alphabet`.
pub open spec fn drawn_from(s: Seq<char>, alphabet: Seq<char>) -> bool {
    forall|i: int| 0 <= i < s.len() ==> alphabet.contains(#[trigger] s[i])
}

/// A generated mailbox name: 10 to 14 characters from `LOCAL_ALPHABET`.
pub open spec fn local_part_shape(s: Seq<char>) -> bool {
    10 <= s.len() <= 14 && drawn_from(s, LOCAL_ALPHABET@)
}

/// A generated mailbox password: 20 characters from `PASSWORD_ALPHABET`.
pub open spec fn password_shape(s: Seq<char>) -> bool {
    s.len() == 20 && drawn_from(s, PASSWORD_ALPHABET@)
}

/// `len` characters drawn uniformly from `alphabet`: the characters at
/// `len` independently drawn positions.
fn draw_chars(rng: &mut rand::rngs::OsRng, alphabet: &Vec<char>, len: usize) -> (out: Vec<char>)
    requires
        alphabet@.len() > 0,
    ensures
        out@.len() == len,
        drawn_from(out@, alphabet@),
        exists|draws: Seq<usize>|
            #[trigger] positions_below(draws, alphabet@.len() as int) && draws.len() == len
                && out@ == picked(alphabet@, draws),
{
    let draws = draw_positions(rng, alphabet.len(), len);
    let out = pick_chars(alphabet.as_slice(), &draws);
    assert forall|i: int| 0 <= i < out@.len() implies alphabet@.contains(#[trigger] out@[i]) by {
        assert(out@[i] == alphabet@[draws@[i] as int]);
    }
    out
}

/// A random mailbox name of 10 to 14 lowercase letters and digits.
pub fn random_local_part() -> (s: String)
    ensures
        local_part_shape(s@),
        forall|i: int|
            0 <= i < s@.len() ==> ('a' <= #[trigger] s@[i] <= 'z') || ('0' <= s@[i] <= '9'),
        exists|draws: Seq<usize>|
            #[trigger] positions_below(draws, LOCAL_ALPHABET@.len() as int) && draws.len()
                == s@.len() && s@ == picked(LOCAL_ALPHABET@, draws),
{
    let alphabet = chars_of(LOCAL_ALPHABET);
    proof {
        reveal_strlit("abcdefghijkmnopqrstuvwxyz23456789");
    }
    let mut rng = os_rng();
    let len = uniform_usize_inclusive(&mut rng, 10, 14);
    let v = draw_chars(&mut rng, &alphabet, len);
    proof {
        assert forall|i: int| 0 <= i < v@.len() implies ('a' <= #[trigger] v@[i] <= 'z') || ('0'
            <= v@[i] <= '9') by {
            assert(alphabet@.contains(v@[i]));
        }
    }
    string_from_chars(&v)
}

/// A random mailbox password of 20 letters and digits.
pub fn random_password() -> (s: String)
    ensures
        password_shape(s@),
        exists|draws: Seq<usize>|
            #[trigger] positions_below(draws, PASSWORD_ALPHABET@.len() as int) && draws.len()
                == 20 && s@ == picked(PASSWORD_ALPHABET@, draws),
{
    let alphabet = chars_of(PASSWORD_ALPHABET);
    proof {
        reveal_strlit("abcdefghijkmnopqrstuvwxyzABCDEFGHJKLMNPQRSTUVWXYZ23456789");
    }
    let mut rng = os_rng();
    let v = draw_chars(&mut rng, &alphabet, 20);
    string_from_chars(&v)
}

// ---------------------------------------------------------------------------
// HTML to text
// ---------------------------------------------------------------------------

/// The named HTML entities that mail text decodes, in the order they are
/// replaced.
pub open spec fn decode_entities(s: Seq<char>) -> Seq<char> {
    replaced(
        replaced(
            replaced(
                replaced(replaced(replaced(s, "&nbsp;"@, " "@), "&amp;"@, "&"@), "&lt;"@, "<"@),
                "&gt;"@,
                ">"@,
            ),
            "&quot;"@,
            "\""@,
        ),
        "&#39;"@,
        "'"@,
    )
}

/// Text after tag removal: entities decoded, whitespace runs collapsed to
/// single spaces, no whitespace at either end.
pub open spec fn cleaned_text(stripped: Seq<char>) -> Seq<char> {
    joined(words_of(decode_entities(stripped)), seq![' '])
}

/// The text of an HTML body: tags replaced by spaces (or, should the tag
/// pattern not compile, the body as it is), then cleaned.
pub open spec fn html_text(html: Seq<char>) -> Seq<char> {
    match regex_replace_all_of(TAG_PATTERN@, html, " "@) {
        Some(stripped) => cleaned_text(stripped),
        None => cleaned_text(html),
    }
}

/// Replaces every occurrence of the literal `from` by `to`.
fn replace_literal(s: &Vec<char>, from: &str, to: &str) -> (out: Vec<char>)
    requires
        from@.len() > 0,
    ensures
        out@ == replaced(s@, from@, to@),
{
    let f = chars_of(from);
    let t = chars_of(to);
    replace_all(s, &f, &t)
}

/// Decodes the entities of a text whose tags are gone and collapses its
/// whitespace.
pub fn clean_text(stripped: &str) -> (out: String)
    ensures
        out@ == cleaned_text(stripped@),
{
    proof {
        reveal_strlit("&nbsp;");
        reveal_strlit("&amp;");
        reveal_strlit("&lt;");
        reveal_strlit("&gt;");
        reveal_strlit("&quot;");
        reveal_strlit("&#39;");
    }
    let s = chars_of(stripped);
    let s = replace_literal(&s, "&nbsp;", " ");
    let s = replace_literal(&s, "&amp;", "&");
    let s = replace_literal(&s, "&lt;", "<");
    let s = replace_literal(&s, "&gt;", ">");
    let s = replace_literal(&s, "&quot;", "\"");
    let s = replace_literal(&s, "&#39;", "'");
    let v = collapse_whitespace(&s);
    string_from_chars(&v)
}

/// The readable text of an HTML body.
pub fn html_to_text(html: &str) -> (out: String)
    ensures
        out@ == html_text(html@),
{
    match regex_replace_all(TAG_PATTERN, html, " ") {
        Some(stripped) => clean_text(stripped.as_str()),
        None => clean_text(html),
    }
}

/// A text with no '&' holds no entity: decoding leaves it as it is.
pub proof fn lemma_decode_plain(s: Seq<char>)
    requires
        !s.contains('&'),
    ensures
        decode_entities(s) == s,
{
    reveal_strlit("&nbsp;");
    reveal_strlit("&amp;");
    reveal_strlit("&lt;");
    reveal_strlit("&gt;");
    reveal_strlit("&quot;");
    reveal_strlit("&#39;");
    lemma_replaced_absent(s, "&nbsp;"@, " "@);
    lemma_replaced_absent(s, "&amp;"@, "&"@);
    lemma_replaced_absent(s, "&lt;"@, "<"@);
    lemma_replaced_absent(s, "&gt;"@, ">"@);
    lemma_replaced_absent(s, "&quot;"@, "\""@);
    lemma_replaced_absent(s, "&#39;"@, "'"@);
}

/// A non-breaking space written as the entity `&nbsp;` between plain text
/// (no '&' on either side) is decoded to a space, so the cleaned text is
/// that of the same text with a space there.
pub proof fn lemma_nbsp_is_space(a: Seq<char>, b: Seq<char>)
    requires
        !a.contains('&'),
        !b.contains('&'),
    ensures
        decode_entities(a + "&nbsp;"@ + b) == a + " "@ + b,
        cleaned_text(a + "&nbsp;"@ + b) == cleaned_text(a + " "@ + b),
{
    reveal_strlit("&nbsp;");
    reveal_strlit(" ");
    let nbsp = "&nbsp;"@;
    assert(a + nbsp + b =~= a + (nbsp + b));
    lemma_replaced_head(a, nbsp + b, nbsp, " "@);
    lemma_replaced_lead(b, nbsp, " "@);
    lemma_replaced_absent(b, nbsp, " "@);
    let spaced_out = a + " "@ + b;
    assert(a + (" "@ + b) =~= spaced_out);
    assert(replaced(a + nbsp + b, nbsp, " "@) == spaced_out);
    assert(!spaced_out.contains('&')) by {
        if spaced_out.contains('&') {
            let i = choose|i: int| 0 <= i < spaced_out.len() && spaced_out[i] == '&';
            if i < a.len() {
                assert(a[i] == '&');
            } else if i == a.len() {
                assert(spaced_out[i] == ' ');
            } else {
                assert(b[i - a.len() - 1] == '&');
            }
        }
    }
    lemma_decode_plain(spaced_out);
    reveal_strlit("&amp;");
    reveal_strlit("&lt;");
    reveal_strlit("&gt;");
    reveal_strlit("&quot;");
    reveal_strlit("&#39;");
    lemma_replaced_absent(spaced_out, "&amp;"@, "&"@);
    lemma_replaced_absent(spaced_out, "&lt;"@, "<"@);
    lemma_replaced_absent(spaced_out, "&gt;"@, ">"@);
    lemma_replaced_absent(spaced_out, "&quot;"@, "\""@);
    lemma_replaced_absent(spaced_out, "&#39;"@, "'"@);
}

// ---------------------------------------------------------------------------
// One-time codes
// ---------------------------------------------------------------------------

/// What `str::len` gives for a string with characters `s`: the length in
/// bytes of its UTF-8 encoding, as a `usize`.
pub open spec fn byte_len(s: Seq<char>) -> int {
    (vstd::utf8::encode_utf8(s).len() as usize) as int
}

/// Four digits like a year (2026) or eight like a date (20260101): four or
/// eight bytes long, starting with "19" or "20".
pub open spec fn date_like(s: Seq<char>) -> bool {
    &&& (byte_len(s) == 4 || byte_len(s) == 8)
    &&& s.len() >= 2
    &&& ((s[0] == '1' && s[1] == '9') || (s[0] == '2' && s[1] == '0'))
}

/// Whether a digit run looks like a year or a date rather than a code.
pub fn looks_like_date(s: &str) -> (r: bool)
    ensures
        r == date_like(s@),
{
    let n = s.len();
    if n != 4 && n != 8 {
        return false;
    }
    let c = chars_of(s);
    c.len() >= 2 && ((c[0] == '1' && c[1] == '9') || (c[0] == '2' && c[1] == '0'))
}

/// The words that mark a mail as carrying a code.
pub open spec fn keyword_in(lower: Seq<char>) -> bool {
    ||| contains_seq(lower, "code"@)
    ||| contains_seq(lower, "otp"@)
    ||| contains_seq(lower, "verification"@)
    ||| contains_seq(lower, "verify"@)
    ||| contains_seq(lower, "ma xac"@)
    ||| contains_seq(lower, "mã xác"@)
    ||| contains_seq(lower, "confirm"@)
}

/// "pin" stands at position `i` as a piece of its own when `s` is split at
/// every character that is not alphanumeric.
pub open spec fn pin_word_at(s: Seq<char>, i: int) -> bool {
    &&& occurs_at(s, "pin"@, i)
    &&& alphanumeric(s[i]) && alphanumeric(s[i + 1]) && alphanumeric(s[i + 2])
    &&& (i == 0 || !alphanumeric(s[i - 1]))
    &&& (i + 3 == s.len() || !alphanumeric(s[i + 3]))
}

/// A mail (already in lower case) that speaks of a code: one of the
/// keywords anywhere, or "pin" as a whole word (so "shipping" does not count).
pub open spec fn otp_keyword(lower: Seq<char>) -> bool {
    keyword_in(lower) || exists|i: int| #[trigger] pin_word_at(lower, i)
}

/// Whether the lower-cased text holds "pin" as a whole word.
fn has_pin_word(lower: &Vec<char>) -> (r: bool)
    ensures
        r == exists|i: int| #[trigger] pin_word_at(lower@, i),
{
    let pin = chars_of("pin");
    proof {
        reveal_strlit("pin");
    }
    let mut i: usize = 0;
    while i < lower.len()
        invariant
            i <= lower@.len(),
            pin@ == "pin"@,
            pin@.len() == 3,
            forall|j: int| 0 <= j < i ==> !pin_word_at(lower@, j),
        decreases lower@.len() - i,
    {
        if occurs_at_exec(lower, &pin, i) {
            let ok = is_alphanumeric(lower[i]) && is_alphanumeric(lower[i + 1]) && is_alphanumeric(
                lower[i + 2],
            ) && (i == 0 || !is_alphanumeric(lower[i - 1])) && (i + 3 == lower.len()
                || !is_alphanumeric(lower[i + 3]));
            if ok {
                assert(pin_word_at(lower@, i as int));
                return true;
            }
        }
        i = i + 1;
    }
    assert forall|j: int| !pin_word_at(lower@, j) by {
        if j >= i {
            assert(!occurs_at(lower@, "pin"@, j));
        }
    }
    false
}

/// Whether a lower-cased mail text speaks of a code.
pub fn has_otp_keyword(lower: &str) -> (r: bool)
    ensures
        r == otp_keyword(lower@),
{
    let l = chars_of(lower);
    let found = contains(&l, &chars_of("code")) || contains(&l, &chars_of("otp")) || contains(
        &l,
        &chars_of("verification"),
    ) || contains(&l, &chars_of("verify")) || contains(&l, &chars_of("ma xac")) || contains(
        &l,
        &chars_of("mã xác"),
    ) || contains(&l, &chars_of("confirm"));
    found || has_pin_word(&l)
}

/// Each of the words "code", "otp", "verification", "verify", "ma xac",
/// "mã xác" and "confirm", anywhere in the lower-cased text, marks the mail
/// as carrying a code, and so does "pin" standing as a word of its own.
pub proof fn lemma_keywords_mark_codes(lower: Seq<char>)
    ensures
        contains_seq(lower, "code"@) ==> otp_keyword(lower),
        contains_seq(lower, "otp"@) ==> otp_keyword(lower),
        contains_seq(lower, "verification"@) ==> otp_keyword(lower),
        contains_seq(lower, "verify"@) ==> otp_keyword(lower),
        contains_seq(lower, "ma xac"@) ==> otp_keyword(lower),
        contains_seq(lower, "mã xác"@) ==> otp_keyword(lower),
        contains_seq(lower, "confirm"@) ==> otp_keyword(lower),
        forall|i: int| #[trigger] pin_word_at(lower, i) ==> otp_keyword(lower),
{
}

/// With a keyword in the lower-cased text, a four-digit run that does not
/// look like a year counts as a code, just as a six-digit run does; without
/// one, only six-digit runs count.
pub proof fn lemma_keyword_admits_short_codes(text: Seq<char>, c: Seq<char>)
    requires
        contains_seq(lowercase_of(text), "otp"@) || contains_seq(lowercase_of(text), "code"@),
        byte_len(c) == 4,
        !date_like(c),
    ensures
        eligible(c, otp_keyword(lowercase_of(text))),
{
}

/// The strings that are present, in order.
pub open spec fn somes(g: Seq<Option<Seq<char>>>) -> Seq<Seq<char>>
    decreases g.len(),
{
    if g.len() == 0 {
        seq![]
    } else {
        match g.last() {
            Some(s) => somes(g.drop_last()).push(s),
            None => somes(g.drop_last()),
        }
    }
}

/// A candidate that may be the code: never a date-like eight-digit run;
/// without a keyword, only six-digit runs that do not look like a year.
pub open spec fn eligible(s: Seq<char>, keyword: bool) -> bool {
    &&& !(byte_len(s) == 8 && date_like(s))
    &&& (keyword || !date_like(s))
    &&& (keyword || byte_len(s) == 6)
}

/// The order of preference: six digits, then four, then eight, then the
/// rest; anything that looks like a year comes after all of those.
pub open spec fn rank(s: Seq<char>) -> int {
    (if date_like(s) { 4int } else { 0int }) + (if byte_len(s) == 6 {
        0int
    } else if byte_len(s) == 4 {
        1int
    } else if byte_len(s) == 8 {
        2int
    } else {
        3int
    })
}

/// Candidate `i` is eligible, ranks no lower than any eligible candidate
/// and strictly higher than every eligible candidate before it.
pub open spec fn best_at(c: Seq<Seq<char>>, keyword: bool, i: int) -> bool {
    &&& 0 <= i < c.len()
    &&& eligible(c[i], keyword)
    &&& forall|j: int| 0 <= j < c.len() && eligible(#[trigger] c[j], keyword) ==> rank(c[i]) <= rank(c[j])
    &&& forall|j: int| 0 <= j < i && eligible(#[trigger] c[j], keyword) ==> rank(c[j]) > rank(c[i])
}

/// `r` is the code chosen among the candidates: the first eligible one of
/// the best rank, or nothing when none is eligible.
pub open spec fn otp_choice(keyword: bool, c: Seq<Seq<char>>, r: Option<Seq<char>>) -> bool {
    match r {
        None => forall|j: int| 0 <= j < c.len() ==> !eligible(#[trigger] c[j], keyword),
        Some(s) => exists|i: int| #[trigger] best_at(c, keyword, i) && c[i] == s,
    }
}

/// `r` is the code found in `text`: among the digit runs that the pattern
/// finds, the one that `otp_choice` picks, given whether the lower-cased text
/// holds a keyword.
pub open spec fn otp_of(text: Seq<char>, r: Option<Seq<char>>) -> bool {
    match regex_first_groups_of(OTP_PATTERN@, text) {
        None => r is None,
        Some(g) => otp_choice(otp_keyword(lowercase_of(text)), somes(g), r),
    }
}

/// The groups that are present, in order.
pub fn present_groups(groups: &Vec<Option<String>>) -> (out: Vec<String>)
    ensures
        str_views(out@) == somes(opt_views(groups@)),
{
    let mut out: Vec<String> = Vec::new();
    let mut k: usize = 0;
    assert(opt_views(groups@).take(0) =~= Seq::<Option<Seq<char>>>::empty());
    while k < groups.len()
        invariant
            k <= groups@.len(),
            str_views(out@) == somes(opt_views(groups@).take(k as int)),
        decreases groups@.len() - k,
    {
        let ghost before = str_views(out@);
        assert(opt_views(groups@).take(k + 1).drop_last() =~= opt_views(groups@).take(k as int));
        match &groups[k] {
            Some(s) => {
                out.push(s.clone());
                assert(str_views(out@) =~= before.push(s@));
            },
            None => {},
        }
        k = k + 1;
    }
    assert(opt_views(groups@).take(groups@.len() as int) =~= opt_views(groups@));
    out
}

/// Whether a candidate may be the code.
fn is_eligible(s: &String, keyword: bool) -> (r: bool)
    ensures
        r == eligible(s@, keyword),
{
    let n = s.as_str().len();
    let date = looks_like_date(s.as_str());
    !(n == 8 && date) && (keyword || !date) && (keyword || n == 6)
}

/// The rank of a candidate.
fn rank_of(s: &String) -> (r: u8)
    ensures
        r as int == rank(s@),
{
    let n = s.as_str().len();
    let by_len: u8 = if n == 6 {
        0
    } else if n == 4 {
        1
    } else if n == 8 {
        2
    } else {
        3
    };
    if looks_like_date(s.as_str()) {
        4 + by_len
    } else {
        by_len
    }
}

/// The code among the candidates: the first eligible one of the best rank.
pub fn choose_otp(has_keyword: bool, candidates: &Vec<String>) -> (r: Option<String>)
    ensures
        otp_choice(has_keyword, str_views(candidates@), opt_view(r)),
{
    let ghost c = str_views(candidates@);
    let mut best: Option<usize> = None;
    let mut best_rank: u8 = 0;
    let mut i: usize = 0;
    while i < candidates.len()
        invariant
            i <= candidates@.len(),
            c == str_views(candidates@),
            match best {
                None => forall|j: int| 0 <= j < i ==> !eligible(#[trigger] c[j], has_keyword),
                Some(b) => {
                    &&& b < i
                    &&& best_rank as int == rank(c[b as int])
                    &&& eligible(c[b as int], has_keyword)
                    &&& forall|j: int|
                        0 <= j < i && eligible(#[trigger] c[j], has_keyword) ==> rank(c[b as int])
                            <= rank(c[j])
                    &&& forall|j: int|
                        0 <= j < b && eligible(#[trigger] c[j], has_keyword) ==> rank(c[j]) > rank(
                            c[b as int],
                        )
                },
            },
        decreases candidates@.len() - i,
    {
        assert(c[i as int] == candidates@[i as int]@);
        if is_eligible(&candidates[i], has_keyword) {
            let k = rank_of(&candidates[i]);
            match best {
                None => {
                    best = Some(i);
                    best_rank = k;
                },
                Some(b) => {
                    if k < best_rank {
                        best = Some(i);
                        best_rank = k;
                    }
                },
            }
        }
        i = i + 1;
    }
    match best {
        None => None,
        Some(b) => {
            let s = candidates[b].clone();
            assert(best_at(c, has_keyword, b as int));
            Some(s)
        },
    }
}

/// The one-time code of a mail text, if it seems to hold one: digit runs of
/// 4 to 8 digits are candidates; dates never count; without a keyword only
/// six-digit runs count; six digits are preferred, then four, then eight,
/// and year-like runs come last.  Should the digit pattern not compile (it
/// is a fixed, valid pattern), no code is reported.
pub fn extract_otp(text: &str) -> (r: Option<String>)
    ensures
        otp_of(text@, opt_view(r)),
{
    let lower = lowercase(text);
    let keyword = has_otp_keyword(lower.as_str());
    match regex_first_groups(OTP_PATTERN, text) {
        None => None,
        Some(groups) => {
            let candidates = present_groups(&groups);
            choose_otp(keyword, &candidates)
        },
    }
}

// ---------------------------------------------------------------------------
// Domains and account creation
// ---------------------------------------------------------------------------

/// The domains that can receive mail: active and public, in the order listed.
pub open spec fn usable(list: Seq<ApiDomain>) -> Seq<Seq<char>>
    decreases list.len(),
{
    if list.len() == 0 {
        seq![]
    } else if list.last().is_active && !list.last().is_private {
        usable(list.drop_last()).push(list.last().domain@)
    } else {
        usable(list.drop_last())
    }
}

/// The message when a provider has no domain that can receive mail.
pub open spec fn no_domain_message(provider: Provider) -> Seq<char> {
    provider_name(provider) + " hiện không có domain khả dụng"@
}

/// The active, public domains of a provider's listing, or an error when
/// there is none.
pub fn usable_domains(provider: Provider, list: &Vec<ApiDomain>) -> (r: Result<Vec<String>, String>)
    ensures
        usable(list@).len() == 0 ==> (r matches Err(m) && m@ == no_domain_message(provider)),
        usable(list@).len() > 0 ==> (r matches Ok(v) && str_views(v@) == usable(list@)),
{
    let mut out: Vec<String> = Vec::new();
    let mut k: usize = 0;
    assert(list@.take(0) =~= Seq::<ApiDomain>::empty());
    while k < list.len()
        invariant
            k <= list@.len(),
            str_views(out@) == usable(list@.take(k as int)),
        decreases list@.len() - k,
    {
        let ghost before = str_views(out@);
        assert(list@.take(k + 1).drop_last() =~= list@.take(k as int));
        assert(list@.take(k + 1).last() == list@[k as int]);
        let d = &list[k];
        if d.is_active && !d.is_private {
            out.push(d.domain.clone());
            assert(str_views(out@) =~= before.push(d.domain@));
        }
        k = k + 1;
    }
    assert(list@.take(list@.len() as int) =~= list@);
    if out.len() == 0 {
        return Err(no_domain(provider));
    }
    Ok(out)
}

/// The message when a provider has no usable domain.
fn no_domain(provider: Provider) -> (m: String)
    ensures
        m@ == no_domain_message(provider),
{
    let mut v = chars_of(provider.name());
    append(&mut v, &chars_of(" hiện không có domain khả dụng"));
    string_from_chars(&v)
}

/// The domain for a new address: the desired one if it is listed, else the
/// first listed.
pub open spec fn domain_choice(domains: Seq<Seq<char>>, desired: Option<Seq<char>>) -> Seq<char> {
    match desired {
        Some(d) => if domains.contains(d) {
            d
        } else {
            domains[0]
        },
        None => domains[0],
    }
}

/// The domain for a new address: the desired one if it is listed, else the
/// first listed.
pub fn pick_domain(domains: &Vec<String>, desired: Option<String>) -> (r: String)
    requires
        domains@.len() > 0,
    ensures
        r@ == domain_choice(str_views(domains@), opt_view(desired)),
{
    match desired {
        Some(d) => {
            let mut k: usize = 0;
            while k < domains.len()
                invariant
                    k <= domains@.len(),
                    opt_view(desired) == Some(d@),
                    forall|j: int| 0 <= j < k ==> domains@[j]@ != d@,
                decreases domains@.len() - k,
            {
                if domains[k] == d {
                    assert(str_views(domains@)[k as int] == d@);
                    assert(str_views(domains@).contains(d@));
                    return d;
                }
                k = k + 1;
            }
            assert(!str_views(domains@).contains(d@)) by {
                assert forall|j: int| 0 <= j < domains@.len() implies str_views(domains@)[j]
                    != d@ by {
                    assert(str_views(domains@)[j] == domains@[j]@);
                }
            }
            domains[0].clone()
        },
        None => domains[0].clone(),
    }
}

/// The mailbox name asked for in a given attempt: only the first attempt
/// uses the desired name, trimmed and lower-cased, and only if it is not
/// blank; every other attempt takes a random name.
pub open spec fn chosen_local(desired: Option<Seq<char>>, attempt: int) -> Option<Seq<char>> {
    match desired {
        Some(l) => if attempt == 0 && trimmed(l).len() > 0 {
            Some(lowercase_of(trimmed(l)))
        } else {
            None
        },
        None => None,
    }
}

/// How many addresses are tried before giving up.
pub const MAX_ATTEMPTS: usize = 4;

/// The progress of creating a mailbox: the domain and password chosen, the
/// desired name, how many addresses were tried and the last refusal.
#[derive(Debug, Clone)]
pub struct AccountCreation {
    pub provider: Provider,
    pub domain: String,
    pub password: String,
    pub desired_local: Option<String>,
    pub attempt: usize,
    pub last_err: String,
}

/// Whether the server message says that the address is taken.
pub open spec fn conflict_message(m: Seq<char>) -> bool {
    contains_seq(m, "đã tồn tại"@)
}

impl AccountCreation {
    /// Starts creating a mailbox at `provider` on one of its listed domains,
    /// with a fresh random password; with no domain listed there is nothing
    /// to create, and the provider's no-domain message comes back.
    pub fn start(
        provider: Provider,
        domains: &Vec<String>,
        desired_local: Option<String>,
        desired_domain: Option<String>,
    ) -> (r: Result<AccountCreation, String>)
        ensures
            domains@.len() == 0 <==> r is Err,
            r matches Err(m) ==> m@ == no_domain_message(provider),
            r matches Ok(c) ==> {
                &&& c.provider == provider
                &&& c.domain@ == domain_choice(str_views(domains@), opt_view(desired_domain))
                &&& password_shape(c.password@)
                &&& c.desired_local == desired_local
                &&& c.attempt == 0
                &&& c.last_err@ == Seq::<char>::empty()
            },
    {
        if domains.len() == 0 {
            return Err(no_domain(provider));
        }
        let domain = pick_domain(domains, desired_domain);
        let password = random_password();
        Ok(
            AccountCreation {
                provider,
                domain,
                password,
                desired_local,
                attempt: 0,
                last_err: String::new(),
            },
        )
    }

    /// The next address to try, `None` once `MAX_ATTEMPTS` addresses were
    /// tried.
    pub fn next_address(&mut self) -> (r: Option<String>)
        ensures
            old(self).attempt >= MAX_ATTEMPTS ==> r is None && *final(self) == *old(self),
            old(self).attempt < MAX_ATTEMPTS ==> {
                &&& final(self).attempt == old(self).attempt + 1
                &&& final(self).provider == old(self).provider
                &&& final(self).domain == old(self).domain
                &&& final(self).password == old(self).password
                &&& final(self).desired_local == old(self).desired_local
                &&& final(self).last_err == old(self).last_err
                &&& r matches Some(a) && match chosen_local(
                    opt_view(old(self).desired_local),
                    old(self).attempt as int,
                ) {
                    Some(l) => a@ == l + "@"@ + old(self).domain@,
                    None => exists|loc: Seq<char>|
                        #[trigger] local_part_shape(loc) && a@ == loc + "@"@ + old(self).domain@,
                }
            },
    {
        if self.attempt >= MAX_ATTEMPTS {
            return None;
        }
        let mut local: Option<String> = None;
        if self.attempt == 0 {
            match &self.desired_local {
                Some(l) => {
                    let lc = chars_of(l.as_str());
                    let t = trim(&lc);
                    if t.len() > 0 {
                        let ts = string_from_chars(&t);
                        local = Some(lowercase(ts.as_str()));
                    }
                },
                None => {},
            }
        }
        let name = match local {
            Some(l) => l,
            None => random_local_part(),
        };
        let mut v = chars_of(name.as_str());
        let at = chars_of("@");
        append(&mut v, &at);
        let d = chars_of(self.domain.as_str());
        append(&mut v, &d);
        self.attempt = self.attempt + 1;
        Some(string_from_chars(&v))
    }

    /// Records that the server refused the address with `status`; `true`
    /// when the address was taken, so that another one is worth trying.
    pub fn on_rejected(&mut self, status: u16) -> (retry: bool)
        ensures
            final(self).last_err@ == status_message(old(self).provider, status),
            final(self).provider == old(self).provider,
            final(self).domain == old(self).domain,
            final(self).password == old(self).password,
            final(self).desired_local == old(self).desired_local,
            final(self).attempt == old(self).attempt,
            retry == conflict_message(status_message(old(self).provider, status)),
            retry == (status == 422),
    {
        self.last_err = map_status(self.provider, status);
        proof {
            lemma_conflict_only_for_422(self.provider, status);
        }
        resp_status_is_conflict(self.last_err.as_str())
    }

    /// The mailbox, once the server accepted an address and a login; it
    /// records the provider's API address.
    pub fn finish(self, id: String, address: String, token: String) -> (acc: MailAccount)
        ensures
            acc.id == id,
            acc.address == address,
            acc.password == self.password,
            acc.token == token,
            acc.base@ == provider_base(self.provider),
    {
        let base = owned(self.provider.base());
        MailAccount { id, address, password: self.password, token, base }
    }
}

/// `p` starts at position `i` only where its first characters are.
pub proof fn lemma_occurs_first(s: Seq<char>, p: Seq<char>, i: int)
    requires
        occurs_at(s, p, i),
        p.len() >= 2,
    ensures
        s[i] == p[0],
        s[i + 1] == p[1],
{
    assert(s.subrange(i, i + p.len())[0] == p[0]);
    assert(s.subrange(i, i + p.len())[1] == p[1]);
}

/// Of the server messages, only the one for 422 says that the address is
/// taken.
pub proof fn lemma_conflict_only_for_422(provider: Provider, code: u16)
    ensures
        conflict_message(status_message(provider, code)) <==> code == 422,
{
    let p = "đã tồn tại"@;
    reveal_strlit("đã tồn tại");
    reveal_strlit("mail.tm");
    reveal_strlit("mail.gw");
    reveal_strlit(" đang giới hạn tốc độ, thử lại sau vài giây");
    reveal_strlit("Phiên đăng nhập hết hạn, hãy tạo địa chỉ mới");
    reveal_strlit("Không tìm thấy dữ liệu trên máy chủ");
    reveal_strlit("Máy chủ từ chối dữ liệu (địa chỉ đã tồn tại hoặc domain không hợp lệ)");
    reveal_strlit("Máy chủ trả về lỗi ");
    let m = status_message(provider, code);
    if code == 422 {
        assert(occurs_at(m, p, 33)) by {
            assert(m.subrange(33, 33 + p.len() as int) =~= p);
        }
    } else {
        assert forall|i: int| !occurs_at(m, p, i) by {
            if occurs_at(m, p, i) {
                lemma_occurs_first(m, p, i);
                if code == 429 {
                    let head = provider_name(provider);
                    let tail = " đang giới hạn tốc độ, thử lại sau vài giây"@;
                    if i < head.len() {
                        assert(m[i] == head[i]);
                    } else {
                        assert(m[i] == tail[i - head.len()]);
                        assert(m[i + 1] == tail[i + 1 - head.len()]);
                    }
                } else if code != 401 && code != 404 {
                    let head = "Máy chủ trả về lỗi "@;
                    lemma_decimal_digits(code as nat);
                    if i < head.len() {
                        assert(m[i] == head[i]);
                    } else {
                        assert(m[i] == decimal(code as nat)[i - head.len()]);
                    }
                }
            }
        }
    }
}

/// Decimal representations consist of the digits '0' to '9'.
pub proof fn lemma_decimal_digits(n: nat)
    ensures
        forall|i: int| 0 <= i < decimal(n).len() ==> '0' <= #[trigger] decimal(n)[i] <= '9',
    decreases n,
{
    if n >= 10 {
        lemma_decimal_digits(n / 10);
        let d = decimal(n);
        let h = decimal(n / 10);
        assert forall|i: int| 0 <= i < d.len() implies '0' <= #[trigger] d[i] <= '9' by {
            if i < h.len() {
                assert(d[i] == h[i]);
            }
        }
    }
}

// ---------------------------------------------------------------------------
// Inbox entries and messages
// ---------------------------------------------------------------------------

/// The sender's name, empty when the sender is missing.
pub open spec fn sender_name(from: Option<ApiAddress>) -> Seq<char> {
    match from {
        Some(f) => f.name@,
        None => seq![],
    }
}

/// The sender's address, empty when the sender is missing.
pub open spec fn sender_address(from: Option<ApiAddress>) -> Seq<char> {
    match from {
        Some(f) => f.address@,
        None => seq![],
    }
}

/// `a`, a space, then `b`.
pub open spec fn spaced(a: Seq<char>, b: Seq<char>) -> Seq<char> {
    a + " "@ + b
}

/// `s` is the inbox line for the API entry `m`: the same fields, the sender
/// split into name and address, and the code found in subject and intro.
pub open spec fn summarizes(m: ApiMessage, s: MailSummary) -> bool {
    &&& s.id == m.id
    &&& s.from_name@ == sender_name(m.from)
    &&& s.from_address@ == sender_address(m.from)
    &&& s.subject == m.subject
    &&& s.intro == m.intro
    &&& s.seen == m.seen
    &&& s.created_at == m.created_at
    &&& s.has_attachments == m.has_attachments
    &&& otp_of(spaced(m.subject@, m.intro@), opt_view(s.otp))
}

/// The code of an inbox line is the one found in the subject, one space,
/// then the intro.
pub proof fn lemma_summary_code_source(m: ApiMessage, s: MailSummary)
    requires
        summarizes(m, s),
    ensures
        otp_of(m.subject@ + " "@ + m.intro@, opt_view(s.otp)),
{
}

/// The name and address of a sender, both empty when it is missing.
fn sender_of(from: &Option<ApiAddress>) -> (r: (String, String))
    ensures
        r.0@ == sender_name(*from),
        r.1@ == sender_address(*from),
{
    match from {
        Some(f) => (f.name.clone(), f.address.clone()),
        None => (String::new(), String::new()),
    }
}

/// `a`, a space, then `b`.
fn spaced_text(a: &str, b: &str) -> (r: String)
    ensures
        r@ == spaced(a@, b@),
{
    let mut v = chars_of(a);
    let sp = chars_of(" ");
    append(&mut v, &sp);
    let w = chars_of(b);
    append(&mut v, &w);
    string_from_chars(&v)
}

/// The inbox line for an API entry.
pub fn summarize(m: &ApiMessage) -> (s: MailSummary)
    ensures
        summarizes(*m, s),
{
    let (from_name, from_address) = sender_of(&m.from);
    let probe = spaced_text(m.subject.as_str(), m.intro.as_str());
    let otp = extract_otp(probe.as_str());
    MailSummary {
        id: m.id.clone(),
        from_name,
        from_address,
        subject: m.subject.clone(),
        intro: m.intro.clone(),
        seen: m.seen,
        created_at: m.created_at.clone(),
        has_attachments: m.has_attachments,
        otp,
    }
}

/// The inbox lines for the API entries, in order.
pub fn summarize_all(list: &Vec<ApiMessage>) -> (out: Vec<MailSummary>)
    ensures
        out@.len() == list@.len(),
        forall|i: int| 0 <= i < list@.len() ==> summarizes(#[trigger] list@[i], out@[i]),
{
    let mut out: Vec<MailSummary> = Vec::new();
    let mut k: usize = 0;
    while k < list.len()
        invariant
            k <= list@.len(),
            out@.len() == k,
            forall|i: int| 0 <= i < k ==> summarizes(#[trigger] list@[i], out@[i]),
        decreases list@.len() - k,
    {
        out.push(summarize(&list[k]));
        k = k + 1;
    }
    out
}

/// The text of a message: its plain text without surrounding whitespace;
/// when that is empty and there are HTML parts, the text of those parts
/// joined with line breaks.
pub open spec fn message_text(m: ApiMessageDetail) -> Seq<char> {
    let plain = trimmed(m.text@);
    if plain.len() == 0 && m.html@.len() > 0 {
        html_text(joined(str_views(m.html@), "\n"@))
    } else {
        plain
    }
}

/// `d` is the message for the API message `m`.
pub open spec fn details(m: ApiMessageDetail, d: MailDetail) -> bool {
    &&& d.id == m.id
    &&& d.subject == m.subject
    &&& d.from_name@ == sender_name(m.from)
    &&& d.from_address@ == sender_address(m.from)
    &&& d.created_at == m.created_at
    &&& d.text@ == message_text(m)
    &&& otp_of(spaced(m.subject@, d.text@), opt_view(d.otp))
}

/// The message for an API message.
pub fn detail_of(m: &ApiMessageDetail) -> (d: MailDetail)
    ensures
        details(*m, d),
{
    let raw = chars_of(m.text.as_str());
    let plain = trim(&raw);
    let text = if plain.len() == 0 && m.html.len() > 0 {
        let mut parts: Vec<Vec<char>> = Vec::new();
        let mut k: usize = 0;
        while k < m.html.len()
            invariant
                k <= m.html@.len(),
                views(parts@) == str_views(m.html@).take(k as int),
            decreases m.html@.len() - k,
        {
            let ghost before = views(parts@);
            let c = chars_of(m.html[k].as_str());
            assert(c@ == m.html@[k as int]@);
            parts.push(c);
            assert(views(parts@) =~= before.push(c@));
            k = k + 1;
            assert(views(parts@) =~= str_views(m.html@).take(k as int));
        }
        assert(views(parts@) =~= str_views(m.html@));
        let nl = chars_of("\n");
        let joined_html = join(&parts, &nl);
        let html = string_from_chars(&joined_html);
        html_to_text(html.as_str())
    } else {
        string_from_chars(&plain)
    };
    let (from_name, from_address) = sender_of(&m.from);
    let probe = spaced_text(m.subject.as_str(), text.as_str());
    let otp = extract_otp(probe.as_str());
    MailDetail {
        id: m.id.clone(),
        subject: m.subject.clone(),
        from_name,
        from_address,
        created_at: m.created_at.clone(),
        text,
        otp,
    }
}

} // verus!
