//! Random passwords and passphrases.
//!
//! A password is drawn uniformly from the pool of the selected character
//! classes; candidates that miss a selected class are rejected and drawn
//! again.  A passphrase is a run of syllables from the word list.  The
//! entropy estimates built on these values involve floating point and are
//! computed outside this library from the `EntropyBasis` returned here.
use crate::random::{
    distinct_positions, draw_positions, draw_shuffle, os_rng, partial_shuffle, pick_chars,
    picked, positions_below, shuffle_draws, shuffled, uniform_index, uniform_u32,
};
use crate::text::{
    append, ascii_upper, chars_of, decimal, decimal_chars, join, joined, owned, str_views,
    string_from_chars, to_ascii_uppercase, views,
};
use crate::wordlist::{lemma_word_list_facts, word_seq, words};
use rand::rngs::OsRng;
use vstd::prelude::*;

verus! {

/// Lowercase letters that are easy to tell apart.
pub const LOWER: &'static str = "abcdefghijkmnpqrstuvwxyz";

/// Lowercase letters that are easily confused: `l` with `1` and `I`, `o`
/// with `0` and `O`.
pub const LOWER_AMB: &'static str = "lo";

/// Uppercase letters that are easy to tell apart.
pub const UPPER: &'static str = "ABCDEFGHJKLMNPQRSTUVWXYZ";

/// Uppercase letters that are easily confused with digits.
pub const UPPER_AMB: &'static str = "IO";

/// Digits that are easy to tell apart from letters.
pub const DIGITS: &'static str = "23456789";

/// Digits that are easily confused with letters.
pub const DIGITS_AMB: &'static str = "01";

/// Symbols that are easy to tell apart.
pub const SYMBOLS: &'static str = "!@#$%^&*()-_=+[]{};:,.?/";

/// Symbols that are easily confused with one another or with quotes.
pub const SYMBOLS_AMB: &'static str = "|`'\"~<>\\";

/// How many candidates are drawn before giving up.  The lowest acceptance
/// rate (length 4, all four classes) is still about 6%, so failing after
/// this many draws is negligible.
pub const MAX_TRIES: usize = 10000;

/// What a random password is made of.
#[derive(Debug, Clone)]
pub struct PasswordOptions {
    pub length: usize,
    pub lowercase: bool,
    pub uppercase: bool,
    pub digits: bool,
    pub symbols: bool,
    /// Leave out characters that are easily confused: 0 O o, 1 l I, | ` ' " and the like.
    pub avoid_ambiguous: bool,
    /// No character may occur twice (needs a length within the pool size).
    pub no_repeat: bool,
}

/// What a passphrase is made of.
#[derive(Debug, Clone)]
pub struct PassphraseOptions {
    pub words: usize,
    pub separator: String,
    pub capitalize: bool,
    /// Append a random two-digit number to one of the words.
    pub add_number: bool,
}

/// Why no password or passphrase was produced.
#[derive(Debug, Clone, Copy, PartialEq, Eq, Structural)]
pub enum PasswordError {
    /// The password length lies outside 4..=128.
    InvalidLength,
    /// No character class is selected.
    NoClassSelected,
    /// Fewer characters than selected classes.
    TooShortForClasses,
    /// Without repetition the length may not exceed the pool size `max`.
    NoRepeatTooLong { max: usize },
    /// No acceptable candidate turned up within `MAX_TRIES` draws.
    Unsatisfiable,
    /// The passphrase word count lies outside 4..=15.
    InvalidWordCount,
}

/// What an entropy estimate of a generated value is computed from.
#[derive(Debug, Clone)]
pub enum EntropyBasis {
    /// A password of `length` characters over classes of the given sizes,
    /// each class present at least once, without repetition if `distinct`.
    Characters { class_sizes: Vec<usize>, length: usize, distinct: bool },
    /// A passphrase of `count` words from a list of `list_size` words, with
    /// a two-digit number appended to one word if `with_number`.
    Words { count: usize, list_size: usize, with_number: bool },
}

/// A generated password or passphrase, with what its strength rests on.
#[derive(Debug, Clone)]
pub struct GeneratedValue {
    pub value: String,
    pub pool_size: usize,
    pub basis: EntropyBasis,
}

// ---------------------------------------------------------------------------
// Specifications
// ---------------------------------------------------------------------------

/// A character class: its base characters, followed by the ambiguous ones
/// unless those are avoided.
pub open spec fn class_spec(base: Seq<char>, ambiguous: Seq<char>, avoid: bool) -> Seq<char> {
    if avoid {
        base
    } else {
        base + ambiguous
    }
}

/// The class if it is selected, as a sequence of zero or one classes.
pub open spec fn optional_class(selected: bool, class: Seq<char>) -> Seq<Seq<char>> {
    if selected {
        seq![class]
    } else {
        seq![]
    }
}

/// The selected character classes, in the order lower, upper, digits, symbols.
pub open spec fn selected_classes(opts: PasswordOptions) -> Seq<Seq<char>> {
    let avoid = opts.avoid_ambiguous;
    optional_class(opts.lowercase, class_spec(LOWER@, LOWER_AMB@, avoid)) + optional_class(
        opts.uppercase,
        class_spec(UPPER@, UPPER_AMB@, avoid),
    ) + optional_class(opts.digits, class_spec(DIGITS@, DIGITS_AMB@, avoid)) + optional_class(
        opts.symbols,
        class_spec(SYMBOLS@, SYMBOLS_AMB@, avoid),
    )
}

/// The parts concatenated in order.
pub open spec fn concat_all(parts: Seq<Seq<char>>) -> Seq<char>
    decreases parts.len(),
{
    if parts.len() == 0 {
        seq![]
    } else {
        concat_all(parts.drop_last()) + parts.last()
    }
}

/// The pool that password characters are drawn from.
pub open spec fn pool_of(opts: PasswordOptions) -> Seq<char> {
    concat_all(selected_classes(opts))
}

/// The sizes of the classes.
pub open spec fn sizes_of(classes: Seq<Seq<char>>) -> Seq<usize> {
    Seq::new(classes.len(), |i: int| classes[i].len() as usize)
}

/// Some character of `chars` belongs to `class`.
pub open spec fn present(chars: Seq<char>, class: Seq<char>) -> bool {
    exists|i: int| 0 <= i < chars.len() && #[trigger] class.contains(chars[i])
}

/// Every class has a character in `chars`.
pub open spec fn covers(chars: Seq<char>, classes: Seq<Seq<char>>) -> bool {
    forall|k: int| 0 <= k < classes.len() ==> present(chars, #[trigger] classes[k])
}

/// Options under which every draw already holds every selected class: a
/// single class, or no repetition with the length of the whole pool.
pub open spec fn draws_always_cover(opts: PasswordOptions) -> bool {
    selected_classes(opts).len() == 1 || (opts.no_repeat && opts.length == pool_of(opts).len())
}

/// `c` is what one draw for the options can give: the characters at drawn
/// pool positions, or, without repetition, the first `length` items of a
/// partial Fisher-Yates shuffle of the pool with drawn offsets.
pub open spec fn drawn_candidate(opts: PasswordOptions, c: Seq<char>) -> bool {
    if opts.no_repeat {
        exists|draws: Seq<usize>|
            #[trigger] shuffle_draws(draws, pool_of(opts).len() as int) && draws.len()
                == opts.length && c == shuffled(pool_of(opts), draws).take(opts.length as int)
    } else {
        exists|draws: Seq<usize>|
            #[trigger] positions_below(draws, pool_of(opts).len() as int) && draws.len()
                == opts.length && c == picked(pool_of(opts), draws)
    }
}

/// `MAX_TRIES` draws for the options, none of which holds every class.
pub open spec fn all_draws_missed(opts: PasswordOptions, tried: Seq<Seq<char>>) -> bool {
    &&& tried.len() == MAX_TRIES
    &&& forall|k: int|
        0 <= k < tried.len() ==> #[trigger] drawn_candidate(opts, tried[k]) && !covers(
            tried[k],
            selected_classes(opts),
        )
}

/// The error that the options themselves call for, if any.
pub open spec fn options_error(opts: PasswordOptions) -> Option<PasswordError> {
    if opts.length < 4 || opts.length > 128 {
        Some(PasswordError::InvalidLength)
    } else if selected_classes(opts).len() == 0 {
        Some(PasswordError::NoClassSelected)
    } else if selected_classes(opts).len() > opts.length {
        Some(PasswordError::TooShortForClasses)
    } else if opts.no_repeat && opts.length > pool_of(opts).len() {
        Some(PasswordError::NoRepeatTooLong { max: pool_of(opts).len() as usize })
    } else {
        None
    }
}

/// A password that the options accept: the right length, drawn from the
/// pool, with every selected class present, and without repetition when
/// that is asked for.
pub open spec fn acceptable(opts: PasswordOptions, v: Seq<char>) -> bool {
    &&& v.len() == opts.length
    &&& forall|i: int| 0 <= i < v.len() ==> pool_of(opts).contains(#[trigger] v[i])
    &&& covers(v, selected_classes(opts))
    &&& opts.no_repeat ==> v.no_duplicates()
}

/// All characters that the ambiguity option leaves out.
pub open spec fn ambiguous_chars() -> Seq<char> {
    LOWER_AMB@ + UPPER_AMB@ + DIGITS_AMB@ + SYMBOLS_AMB@
}

/// The text of an error, as shown to the user.
pub open spec fn error_message(e: PasswordError) -> Seq<char> {
    match e {
        PasswordError::InvalidLength => "Độ dài mật khẩu phải từ 4 đến 128 ký tự"@,
        PasswordError::NoClassSelected => "Cần chọn ít nhất một nhóm ký tự"@,
        PasswordError::TooShortForClasses => "Độ dài quá ngắn so với số nhóm ký tự đã chọn"@,
        PasswordError::NoRepeatTooLong { max } => "Không lặp ký tự thì độ dài tối đa là "@
            + decimal(max as nat) + " với các nhóm đang chọn"@,
        PasswordError::Unsatisfiable =>
            "Không sinh được mật khẩu thoả mãn điều kiện — hãy tăng độ dài hoặc bớt ràng buộc"@,
        PasswordError::InvalidWordCount => "Số từ phải từ 4 đến 15"@,
    }
}

impl PasswordError {
    /// The text of the error, as shown to the user.
    pub fn message(&self) -> (m: String)
        ensures
            m@ == error_message(*self),
    {
        match self {
            PasswordError::InvalidLength => owned("Độ dài mật khẩu phải từ 4 đến 128 ký tự"),
            PasswordError::NoClassSelected => owned("Cần chọn ít nhất một nhóm ký tự"),
            PasswordError::TooShortForClasses => owned(
                "Độ dài quá ngắn so với số nhóm ký tự đã chọn",
            ),
            PasswordError::NoRepeatTooLong { max } => {
                let mut v = chars_of("Không lặp ký tự thì độ dài tối đa là ");
                let n = decimal_chars(*max as u64);
                append(&mut v, &n);
                let tail = chars_of(" với các nhóm đang chọn");
                append(&mut v, &tail);
                string_from_chars(&v)
            },
            PasswordError::Unsatisfiable => owned(
                "Không sinh được mật khẩu thoả mãn điều kiện — hãy tăng độ dài hoặc bớt ràng buộc",
            ),
            PasswordError::InvalidWordCount => owned("Số từ phải từ 4 đến 15"),
        }
    }
}

// ---------------------------------------------------------------------------
// Character classes and sampling
// ---------------------------------------------------------------------------

/// A character class: the base characters, then the ambiguous ones unless
/// `avoid` is set.
pub fn class_chars(base: &str, ambiguous: &str, avoid: bool) -> (v: Vec<char>)
    ensures
        v@ == class_spec(base@, ambiguous@, avoid),
{
    let mut v = chars_of(base);
    if !avoid {
        let a = chars_of(ambiguous);
        append(&mut v, &a);
    }
    v
}

/// Whether `c` occurs in `v`.
pub fn vec_has(v: &Vec<char>, c: char) -> (r: bool)
    ensures
        r == v@.contains(c),
{
    let mut i: usize = 0;
    while i < v.len()
        invariant
            i <= v.len(),
            forall|j: int| 0 <= j < i ==> v@[j] != c,
        decreases v.len() - i,
    {
        if v[i] == c {
            return true;
        }
        i = i + 1;
    }
    false
}

/// Whether every class has at least one of its characters in `chars`.
pub fn covers_all(chars: &[char], classes: &[Vec<char>]) -> (r: bool)
    ensures
        r == covers(chars@, views(classes@)),
{
    let mut k: usize = 0;
    while k < classes.len()
        invariant
            k <= classes.len(),
            forall|kk: int| 0 <= kk < k ==> present(chars@, #[trigger] views(classes@)[kk]),
        decreases classes.len() - k,
    {
        let class = &classes[k];
        let mut found = false;
        let mut i: usize = 0;
        while i < chars.len()
            invariant
                i <= chars@.len(),
                found ==> exists|j: int| 0 <= j < chars@.len() && #[trigger] class@.contains(chars@[j]),
                !found ==> forall|j: int| 0 <= j < i ==> !class@.contains(#[trigger] chars@[j]),
            decreases chars@.len() - i,
        {
            if vec_has(class, chars[i]) {
                found = true;
            }
            i = i + 1;
        }
        assert(views(classes@)[k as int] == class@);
        if !found {
            assert(!present(chars@, views(classes@)[k as int]));
            return false;
        }
        k = k + 1;
    }
    true
}

/// `len` characters drawn uniformly from `pool`, repetition allowed: the
/// characters at `len` independently drawn positions.
pub fn sample_with_repeat(rng: &mut OsRng, pool: &[char], len: usize) -> (out: Vec<char>)
    requires
        pool@.len() > 0,
    ensures
        out@.len() == len,
        forall|i: int| 0 <= i < len ==> pool@.contains(#[trigger] out@[i]),
        exists|draws: Seq<usize>|
            #[trigger] positions_below(draws, pool@.len() as int) && draws.len() == len && out@
                == picked(pool@, draws),
{
    let draws = draw_positions(rng, pool.len(), len);
    let out = pick_chars(pool, &draws);
    assert forall|i: int| 0 <= i < len implies pool@.contains(#[trigger] out@[i]) by {
        assert(out@[i] == pool@[draws@[i] as int]);
    }
    out
}

/// `len` characters of `pool` from distinct positions, drawn uniformly: the
/// first `len` items of a partial Fisher-Yates shuffle with drawn offsets.
/// No character repeats when the pool has none, and the whole pool comes
/// out when `len` is its size.
pub fn sample_distinct(rng: &mut OsRng, pool: &[char], len: usize) -> (out: Vec<char>)
    requires
        len <= pool@.len(),
    ensures
        out@.len() == len,
        forall|i: int| 0 <= i < len ==> pool@.contains(#[trigger] out@[i]),
        exists|draws: Seq<usize>|
            #[trigger] shuffle_draws(draws, pool@.len() as int) && draws.len() == len && out@
                == shuffled(pool@, draws).take(len as int),
        distinct_positions(out@, pool@),
        pool@.no_duplicates() ==> out@.no_duplicates(),
        len == pool@.len() ==> forall|c: char| pool@.contains(c) ==> #[trigger] out@.contains(c),
{
    let draws = draw_shuffle(rng, pool.len(), len);
    partial_shuffle(pool, &draws)
}

// ---------------------------------------------------------------------------
// Password generation
// ---------------------------------------------------------------------------

/// The selected character classes, in the order lower, upper, digits, symbols.
pub fn selected_class_chars(opts: &PasswordOptions) -> (classes: Vec<Vec<char>>)
    ensures
        views(classes@) == selected_classes(*opts),
{
    let avoid = opts.avoid_ambiguous;
    let mut classes: Vec<Vec<char>> = Vec::new();
    if opts.lowercase {
        classes.push(class_chars(LOWER, LOWER_AMB, avoid));
    }
    if opts.uppercase {
        classes.push(class_chars(UPPER, UPPER_AMB, avoid));
    }
    if opts.digits {
        classes.push(class_chars(DIGITS, DIGITS_AMB, avoid));
    }
    if opts.symbols {
        classes.push(class_chars(SYMBOLS, SYMBOLS_AMB, avoid));
    }
    assert(views(classes@) =~= selected_classes(*opts));
    classes
}

/// All characters of the classes, one class after the other.
pub fn concat_classes(classes: &Vec<Vec<char>>) -> (pool: Vec<char>)
    ensures
        pool@ == concat_all(views(classes@)),
{
    let mut pool: Vec<char> = Vec::new();
    let mut k: usize = 0;
    assert(views(classes@).take(0) =~= Seq::<Seq<char>>::empty());
    while k < classes.len()
        invariant
            k <= classes.len(),
            pool@ == concat_all(views(classes@).take(k as int)),
        decreases classes.len() - k,
    {
        assert(views(classes@).take(k + 1).drop_last() =~= views(classes@).take(k as int));
        append(&mut pool, &classes[k]);
        k = k + 1;
    }
    assert(views(classes@).take(classes.len() as int) =~= views(classes@));
    pool
}

/// The number of characters in each class.
pub fn class_size_list(classes: &Vec<Vec<char>>) -> (sizes: Vec<usize>)
    ensures
        sizes@ == sizes_of(views(classes@)),
{
    let mut sizes: Vec<usize> = Vec::new();
    let mut k: usize = 0;
    while k < classes.len()
        invariant
            k <= classes.len(),
            sizes@ == sizes_of(views(classes@)).take(k as int),
        decreases classes.len() - k,
    {
        sizes.push(classes[k].len());
        k = k + 1;
        assert(sizes@ =~= sizes_of(views(classes@)).take(k as int));
    }
    assert(sizes@ =~= sizes_of(views(classes@)));
    sizes
}

/// A random password for the options.
///
/// The options are checked first; each failed check gives its own error.
/// Then candidates are drawn uniformly from the pool (without repetition if
/// asked) until one holds every selected class, at most `MAX_TRIES` times.
pub fn generate_password(opts: &PasswordOptions) -> (r: Result<GeneratedValue, PasswordError>)
    ensures
        options_error(*opts) matches Some(e) ==> r == Err::<GeneratedValue, PasswordError>(e),
        options_error(*opts) is None ==> match r {
            Ok(g) => {
                &&& acceptable(*opts, g.value@)
                &&& drawn_candidate(*opts, g.value@)
                &&& g.pool_size == pool_of(*opts).len()
                &&& g.basis matches EntropyBasis::Characters { class_sizes, length, distinct }
                &&& class_sizes@ == sizes_of(selected_classes(*opts))
                &&& length == opts.length
                &&& distinct == opts.no_repeat
            },
            Err(e) => e == PasswordError::Unsatisfiable && exists|tried: Seq<Seq<char>>|
                #[trigger] all_draws_missed(*opts, tried),
        },
        r matches Ok(g) ==> opts.avoid_ambiguous ==> unambiguous(g.value@),
        options_error(*opts) is None && draws_always_cover(*opts) ==> r is Ok,
{
    if opts.length < 4 || opts.length > 128 {
        return Err(PasswordError::InvalidLength);
    }
    let classes = selected_class_chars(opts);
    if classes.len() == 0 {
        return Err(PasswordError::NoClassSelected);
    }
    if classes.len() > opts.length {
        return Err(PasswordError::TooShortForClasses);
    }
    let pool = concat_classes(&classes);
    let sizes = class_size_list(&classes);
    if opts.no_repeat && opts.length > pool.len() {
        return Err(PasswordError::NoRepeatTooLong { max: pool.len() });
    }
    proof {
        lemma_set_sizes();
        lemma_pool_pieces(*opts);
        lemma_piece(opts.lowercase, class_spec(LOWER@, LOWER_AMB@, opts.avoid_ambiguous));
        lemma_piece(opts.uppercase, class_spec(UPPER@, UPPER_AMB@, opts.avoid_ambiguous));
        lemma_piece(opts.digits, class_spec(DIGITS@, DIGITS_AMB@, opts.avoid_ambiguous));
        lemma_piece(opts.symbols, class_spec(SYMBOLS@, SYMBOLS_AMB@, opts.avoid_ambiguous));
        lemma_pool_distinct(*opts);
        if opts.avoid_ambiguous {
            lemma_pool_unambiguous(*opts);
        }
        lemma_classes_nonempty(*opts);
    }
    assert(pool@.len() > 0);
    // Rejection sampling: draw uniformly, discard candidates that miss a
    // class.  This is exactly uniform over the acceptable passwords, unlike
    // seeding one character per class and shuffling.
    let mut rng = os_rng();
    let mut tries: usize = 0;
    let ghost mut tried: Seq<Seq<char>> = seq![];
    while tries < MAX_TRIES
        invariant
            tries <= MAX_TRIES,
            options_error(*opts) is None,
            pool@ == pool_of(*opts),
            pool@.len() > 0,
            pool@.no_duplicates(),
            opts.avoid_ambiguous ==> unambiguous(pool@),
            views(classes@) == selected_classes(*opts),
            sizes@ == sizes_of(selected_classes(*opts)),
            opts.no_repeat ==> opts.length <= pool@.len(),
            forall|k: int| 0 <= k < classes@.len() ==> #[trigger] views(classes@)[k].len() > 0,
            draws_always_cover(*opts) ==> tries == 0,
            tried.len() == tries,
            forall|k: int|
                0 <= k < tried.len() ==> #[trigger] drawn_candidate(*opts, tried[k]) && !covers(
                    tried[k],
                    selected_classes(*opts),
                ),
        decreases MAX_TRIES - tries,
    {
        let candidate = if opts.no_repeat {
            sample_distinct(&mut rng, pool.as_slice(), opts.length)
        } else {
            sample_with_repeat(&mut rng, pool.as_slice(), opts.length)
        };
        assert(drawn_candidate(*opts, candidate@));
        if covers_all(candidate.as_slice(), classes.as_slice()) {
            let value = string_from_chars(&candidate);
            proof {
                if opts.avoid_ambiguous {
                    assert forall|i: int| 0 <= i < candidate@.len() implies !ambiguous_chars().contains(
                        #[trigger] candidate@[i],
                    ) by {
                        let j = choose|j: int| 0 <= j < pool@.len() && pool@[j] == candidate@[i];
                        assert(!ambiguous_chars().contains(pool@[j]));
                    }
                }
            }
            return Ok(
                GeneratedValue {
                    value,
                    pool_size: pool.len(),
                    basis: EntropyBasis::Characters {
                        class_sizes: sizes,
                        length: opts.length,
                        distinct: opts.no_repeat,
                    },
                },
            );
        }
        proof {
            if draws_always_cover(*opts) {
                lemma_forced_cover(views(classes@), pool@, candidate@, opts.no_repeat);
            }
            let ghost before = tried;
            tried = tried.push(candidate@);
            assert forall|k: int| 0 <= k < tried.len() implies #[trigger] drawn_candidate(
                *opts,
                tried[k],
            ) && !covers(tried[k], selected_classes(*opts)) by {
                if k < before.len() {
                    assert(tried[k] == before[k]);
                }
            }
        }
        tries = tries + 1;
    }
    assert(all_draws_missed(*opts, tried));
    Err(PasswordError::Unsatisfiable)
}

// ---------------------------------------------------------------------------
// Passphrases
// ---------------------------------------------------------------------------

/// A word as it appears in a passphrase: with its first letter in ASCII
/// upper case when `capitalize` is set.
pub open spec fn word_form(w: Seq<char>, capitalize: bool) -> Seq<char> {
    if capitalize && w.len() > 0 {
        seq![ascii_upper(w[0])] + w.drop_first()
    } else {
        w
    }
}

/// Whether `number` puts its digits on part `i`.
pub open spec fn carries_number(number: Option<(usize, u32)>, i: int) -> bool {
    match number {
        Some((p, _)) => p == i,
        None => false,
    }
}

/// The number, if any, goes to one of the `len` parts.
pub open spec fn number_fits(number: Option<(usize, u32)>, len: int) -> bool {
    match number {
        Some((p, _)) => p < len,
        None => true,
    }
}

/// The decimal digits of the number, if any.
pub open spec fn number_text(number: Option<(usize, u32)>) -> Seq<char> {
    match number {
        Some((_, n)) => decimal(n as nat),
        None => Seq::empty(),
    }
}

/// A word in passphrase form keeps its length and every letter after the
/// first; the first letter is put in ASCII upper case when `capitalize` is
/// set, and left as it is otherwise.
pub proof fn lemma_word_form_letters(w: Seq<char>, capitalize: bool)
    ensures
        word_form(w, capitalize).len() == w.len(),
        forall|i: int| 0 < i < w.len() ==> #[trigger] word_form(w, capitalize)[i] == w[i],
        w.len() > 0 ==> word_form(w, capitalize)[0] == (if capitalize {
            ascii_upper(w[0])
        } else {
            w[0]
        }),
{
}

/// Each part of a passphrase is its drawn word in passphrase form: the same
/// letters but the first, which is upper-cased when `capitalize` is set,
/// followed by the number when the part carries it.
pub proof fn lemma_passphrase_part_letters(
    indices: Seq<usize>,
    capitalize: bool,
    number: Option<(usize, u32)>,
    i: int,
)
    requires
        0 <= i < indices.len(),
        number_fits(number, indices.len() as int),
    ensures
        ({
            let part = passphrase_parts(indices, capitalize, number)[i];
            let w = word_seq()[indices[i] as int];
            let tail = if carries_number(number, i) {
                number_text(number)
            } else {
                Seq::<char>::empty()
            };
            &&& part.len() == w.len() + tail.len()
            &&& forall|j: int| 0 < j < w.len() ==> #[trigger] part[j] == w[j]
            &&& w.len() > 0 ==> part[0] == (if capitalize {
                ascii_upper(w[0])
            } else {
                w[0]
            })
            &&& part.skip(w.len() as int) == tail
        }),
{
    let w = word_seq()[indices[i] as int];
    lemma_word_form_letters(w, capitalize);
    let part = passphrase_parts(indices, capitalize, number)[i];
    let f = word_form(w, capitalize);
    match number {
        Some((p, n)) => {
            if p == i {
                assert(part == f + decimal(n as nat));
                assert(part.skip(w.len() as int) =~= decimal(n as nat));
                assert forall|j: int| 0 < j < w.len() implies #[trigger] part[j] == w[j] by {
                    assert(part[j] == f[j]);
                }
            } else {
                assert(part == f);
                assert(part.skip(w.len() as int) =~= Seq::<char>::empty());
            }
        },
        None => {
            assert(part == f);
            assert(part.skip(w.len() as int) =~= Seq::<char>::empty());
        },
    }
}

/// The words at the given positions of the word list, in passphrase form,
/// with `n` appended to the word at position `p` when `number` is `Some((p, n))`.
pub open spec fn passphrase_parts(
    indices: Seq<usize>,
    capitalize: bool,
    number: Option<(usize, u32)>,
) -> Seq<Seq<char>> {
    let parts = Seq::new(
        indices.len(),
        |i: int| word_form(word_seq()[indices[i] as int], capitalize),
    );
    match number {
        Some((p, n)) => parts.update(p as int, parts[p as int] + decimal(n as nat)),
        None => parts,
    }
}

/// The passphrase: its parts joined with the separator.
pub open spec fn passphrase_text(
    indices: Seq<usize>,
    capitalize: bool,
    number: Option<(usize, u32)>,
    separator: Seq<char>,
) -> Seq<char> {
    joined(passphrase_parts(indices, capitalize, number), separator)
}

/// Draws that a passphrase for the options can rest on: one word-list
/// position per word, and a position and a two-digit number exactly when a
/// number is asked for.
pub open spec fn valid_draws(
    opts: PassphraseOptions,
    indices: Seq<usize>,
    number: Option<(usize, u32)>,
) -> bool {
    &&& indices.len() == opts.words
    &&& forall|i: int| 0 <= i < indices.len() ==> #[trigger] indices[i] < word_seq().len()
    &&& (number is Some <==> opts.add_number)
    &&& number matches Some((p, n)) ==> p < opts.words && 10 <= n < 100
}

/// A word in passphrase form.
pub fn word_in_form(w: &str, capitalize: bool) -> (out: Vec<char>)
    ensures
        out@ == word_form(w@, capitalize),
{
    let chars = chars_of(w);
    if capitalize && chars.len() > 0 {
        let mut out: Vec<char> = Vec::new();
        out.push(to_ascii_uppercase(chars[0]));
        let mut k: usize = 1;
        while k < chars.len()
            invariant
                1 <= k <= chars.len(),
                out@ == seq![ascii_upper(chars@[0])] + chars@.subrange(1, k as int),
            decreases chars.len() - k,
        {
            out.push(chars[k]);
            k = k + 1;
            assert(out@ =~= seq![ascii_upper(chars@[0])] + chars@.subrange(1, k as int));
        }
        assert(chars@.subrange(1, chars.len() as int) =~= chars@.drop_first());
        out
    } else {
        chars
    }
}

/// The passphrase made of the given draws.
pub fn assemble_passphrase(
    list: &Vec<String>,
    indices: &Vec<usize>,
    capitalize: bool,
    number: Option<(usize, u32)>,
    separator: &str,
) -> (value: String)
    requires
        str_views(list@) == word_seq(),
        forall|i: int| 0 <= i < indices@.len() ==> #[trigger] indices@[i] < word_seq().len(),
        number matches Some((p, n)) ==> p < indices@.len(),
    ensures
        value@ == passphrase_text(indices@, capitalize, number, separator@),
{
    let mut parts: Vec<Vec<char>> = Vec::new();
    let mut k: usize = 0;
    while k < indices.len()
        invariant
            k <= indices@.len(),
            str_views(list@) == word_seq(),
            forall|i: int| 0 <= i < indices@.len() ==> #[trigger] indices@[i] < word_seq().len(),
            views(parts@) == passphrase_parts(indices@, capitalize, None).take(k as int),
        decreases indices@.len() - k,
    {
        let ghost before = views(parts@);
        let word: &str = list[indices[k]].as_str();
        assert(word@ == word_seq()[indices@[k as int] as int]);
        let w = word_in_form(word, capitalize);
        parts.push(w);
        assert(views(parts@) =~= before.push(w@));
        k = k + 1;
        assert(views(parts@) =~= passphrase_parts(indices@, capitalize, None).take(k as int));
    }
    assert(views(parts@) =~= passphrase_parts(indices@, capitalize, None));
    match number {
        Some((p, n)) => {
            let mut w = parts[p].clone();
            let digits = decimal_chars(n as u64);
            append(&mut w, &digits);
            parts.set(p, w);
            assert(views(parts@) =~= passphrase_parts(indices@, capitalize, number));
        },
        None => {},
    }
    let sep = chars_of(separator);
    let v = join(&parts, &sep);
    string_from_chars(&v)
}

/// A random passphrase for the options: `words` syllables drawn uniformly
/// from the word list, optionally capitalized, one of them optionally
/// followed by a random two-digit number, joined with the separator (which
/// may be empty).
pub fn generate_passphrase(opts: &PassphraseOptions) -> (r: Result<GeneratedValue, PasswordError>)
    ensures
        !(4 <= opts.words <= 15) ==> r == Err::<GeneratedValue, PasswordError>(
            PasswordError::InvalidWordCount,
        ),
        4 <= opts.words <= 15 ==> (r matches Ok(g) && {
            &&& exists|indices: Seq<usize>, number: Option<(usize, u32)>|
                #[trigger] valid_draws(*opts, indices, number) && g.value@ == passphrase_text(
                    indices,
                    opts.capitalize,
                    number,
                    opts.separator@,
                )
            &&& g.pool_size == word_seq().len()
            &&& g.basis == EntropyBasis::Words {
                count: opts.words,
                list_size: word_seq().len() as usize,
                with_number: opts.add_number,
            }
        }),
{
    if opts.words < 4 || opts.words > 15 {
        return Err(PasswordError::InvalidWordCount);
    }
    let list = words();
    proof {
        lemma_word_list_facts();
    }
    let mut rng = os_rng();
    let mut indices: Vec<usize> = Vec::new();
    let mut k: usize = 0;
    while k < opts.words
        invariant
            k <= opts.words,
            indices@.len() == k,
            list@.len() == word_seq().len(),
            list@.len() > 0,
            forall|i: int| 0 <= i < indices@.len() ==> #[trigger] indices@[i] < word_seq().len(),
        decreases opts.words - k,
    {
        indices.push(uniform_index(&mut rng, list.len()));
        k = k + 1;
    }
    let number = if opts.add_number {
        let p = uniform_index(&mut rng, indices.len());
        let n = uniform_u32(&mut rng, 10, 100);
        Some((p, n))
    } else {
        None
    };
    let value = assemble_passphrase(
        &list,
        &indices,
        opts.capitalize,
        number,
        opts.separator.as_str(),
    );
    assert(valid_draws(*opts, indices@, number));
    Ok(
        GeneratedValue {
            value,
            pool_size: list.len(),
            basis: EntropyBasis::Words {
                count: opts.words,
                list_size: list.len(),
                with_number: opts.add_number,
            },
        },
    )
}

// ---------------------------------------------------------------------------
// Facts about the character sets
// ---------------------------------------------------------------------------

/// The sizes of the character sets.
pub proof fn lemma_set_sizes()
    ensures
        LOWER@.len() == 24,
        LOWER_AMB@.len() == 2,
        UPPER@.len() == 24,
        UPPER_AMB@.len() == 2,
        DIGITS@.len() == 8,
        DIGITS_AMB@.len() == 2,
        SYMBOLS@.len() == 24,
        SYMBOLS_AMB@.len() == 8,
{
    reveal_strlit("abcdefghijkmnpqrstuvwxyz");
    reveal_strlit("lo");
    reveal_strlit("ABCDEFGHJKLMNPQRSTUVWXYZ");
    reveal_strlit("IO");
    reveal_strlit("23456789");
    reveal_strlit("01");
    reveal_strlit("!@#$%^&*()-_=+[]{};:,.?/");
    reveal_strlit("|`'\"~<>\\");
}

/// The pool is the selected classes, one after the other.
proof fn lemma_pool_pieces(opts: PasswordOptions)
    ensures
        pool_of(opts) == concat_all(optional_class(opts.lowercase, class_spec(LOWER@, LOWER_AMB@, opts.avoid_ambiguous)))
            + concat_all(optional_class(opts.uppercase, class_spec(UPPER@, UPPER_AMB@, opts.avoid_ambiguous)))
            + concat_all(optional_class(opts.digits, class_spec(DIGITS@, DIGITS_AMB@, opts.avoid_ambiguous)))
            + concat_all(optional_class(opts.symbols, class_spec(SYMBOLS@, SYMBOLS_AMB@, opts.avoid_ambiguous))),
{
    let a = optional_class(opts.lowercase, class_spec(LOWER@, LOWER_AMB@, opts.avoid_ambiguous));
    let b = optional_class(opts.uppercase, class_spec(UPPER@, UPPER_AMB@, opts.avoid_ambiguous));
    let c = optional_class(opts.digits, class_spec(DIGITS@, DIGITS_AMB@, opts.avoid_ambiguous));
    let d = optional_class(opts.symbols, class_spec(SYMBOLS@, SYMBOLS_AMB@, opts.avoid_ambiguous));
    lemma_concat_all_add(a, b);
    lemma_concat_all_add(a + b, c);
    lemma_concat_all_add(a + b + c, d);
}

/// Every selected class holds at least one character.
pub proof fn lemma_classes_nonempty(opts: PasswordOptions)
    ensures
        forall|k: int|
            0 <= k < selected_classes(opts).len() ==> #[trigger] selected_classes(opts)[k].len() > 0,
{
    lemma_set_sizes();
    let avoid = opts.avoid_ambiguous;
    let a = optional_class(opts.lowercase, class_spec(LOWER@, LOWER_AMB@, avoid));
    let b = optional_class(opts.uppercase, class_spec(UPPER@, UPPER_AMB@, avoid));
    let c = optional_class(opts.digits, class_spec(DIGITS@, DIGITS_AMB@, avoid));
    let d = optional_class(opts.symbols, class_spec(SYMBOLS@, SYMBOLS_AMB@, avoid));
    let s = selected_classes(opts);
    assert forall|k: int| 0 <= k < s.len() implies #[trigger] s[k].len() > 0 by {
        if k < a.len() {
            assert(s[k] == a[k]);
        } else if k < a.len() + b.len() {
            assert(s[k] == b[k - a.len()]);
        } else if k < a.len() + b.len() + c.len() {
            assert(s[k] == c[k - a.len() - b.len()]);
        } else {
            assert(s[k] == d[k - a.len() - b.len() - c.len()]);
        }
    }
}

/// Each character of each part occurs in the concatenation of the parts.
pub proof fn lemma_part_in_concat(parts: Seq<Seq<char>>, k: int, j: int)
    requires
        0 <= k < parts.len(),
        0 <= j < parts[k].len(),
    ensures
        concat_all(parts).contains(parts[k][j]),
    decreases parts.len(),
{
    let init = parts.drop_last();
    if k == parts.len() - 1 {
        assert(concat_all(parts)[concat_all(init).len() + j] == parts[k][j]);
    } else {
        assert(init[k] == parts[k]);
        lemma_part_in_concat(init, k, j);
        let i = choose|i: int| 0 <= i < concat_all(init).len() && concat_all(init)[i] == parts[k][j];
        assert(concat_all(parts)[i] == parts[k][j]);
    }
}

/// A candidate drawn for options where draws always cover does cover: with
/// a single class every character belongs to it; with the whole pool drawn
/// without repetition every class character comes out.
proof fn lemma_forced_cover(
    classes: Seq<Seq<char>>,
    pool: Seq<char>,
    candidate: Seq<char>,
    no_repeat: bool,
)
    requires
        pool == concat_all(classes),
        forall|k: int| 0 <= k < classes.len() ==> #[trigger] classes[k].len() > 0,
        candidate.len() > 0,
        forall|i: int| 0 <= i < candidate.len() ==> pool.contains(#[trigger] candidate[i]),
        classes.len() == 1 || (no_repeat && forall|c: char| pool.contains(c) ==> #[trigger] candidate.contains(c)),
    ensures
        covers(candidate, classes),
{
    if classes.len() == 1 {
        let e = Seq::<Seq<char>>::empty();
        assert(classes.drop_last() =~= e);
        assert(concat_all(e) == Seq::<char>::empty());
        assert(pool =~= classes[0]);
        assert(pool.contains(candidate[0]));
        assert(classes[0].contains(candidate[0]));
        assert(present(candidate, classes[0]));
    } else {
        assert forall|k: int| 0 <= k < classes.len() implies present(candidate, #[trigger] classes[k]) by {
            lemma_part_in_concat(classes, k, 0);
            let c = classes[k][0];
            assert(candidate.contains(c));
            let i = choose|i: int| 0 <= i < candidate.len() && candidate[i] == c;
            assert(classes[k].contains(candidate[i])) by {
                assert(classes[k][0] == candidate[i]);
            }
        }
    }
}

/// Concatenating two runs of parts.
pub proof fn lemma_concat_all_add(a: Seq<Seq<char>>, b: Seq<Seq<char>>)
    ensures
        concat_all(a + b) == concat_all(a) + concat_all(b),
    decreases b.len(),
{
    if b.len() == 0 {
        assert(a + b =~= a);
        assert(concat_all(a) + concat_all(b) =~= concat_all(a));
    } else {
        assert((a + b).drop_last() =~= a + b.drop_last());
        lemma_concat_all_add(a, b.drop_last());
        assert(concat_all(a + b) =~= concat_all(a) + concat_all(b));
    }
}

/// The kind of a character: lowercase ASCII letter, uppercase ASCII letter,
/// ASCII digit, or anything else.
pub open spec fn kind_of(c: char) -> int {
    if 'a' <= c && c <= 'z' {
        0
    } else if 'A' <= c && c <= 'Z' {
        1
    } else if '0' <= c && c <= '9' {
        2
    } else {
        3
    }
}

/// Every character of `s` has kind `k`.
pub open spec fn all_of_kind(s: Seq<char>, k: int) -> bool {
    forall|i: int| 0 <= i < s.len() ==> kind_of(#[trigger] s[i]) == k
}

/// No character of `s` is left out by the ambiguity option.
pub open spec fn unambiguous(s: Seq<char>) -> bool {
    forall|i: int| 0 <= i < s.len() ==> !ambiguous_chars().contains(#[trigger] s[i])
}

/// Each class holds no character twice, all its characters are of one kind,
/// and its base part holds no ambiguous character.
proof fn lemma_class_facts(avoid: bool)
    ensures
        class_spec(LOWER@, LOWER_AMB@, avoid).no_duplicates(),
        class_spec(UPPER@, UPPER_AMB@, avoid).no_duplicates(),
        class_spec(DIGITS@, DIGITS_AMB@, avoid).no_duplicates(),
        class_spec(SYMBOLS@, SYMBOLS_AMB@, avoid).no_duplicates(),
        all_of_kind(class_spec(LOWER@, LOWER_AMB@, avoid), 0),
        all_of_kind(class_spec(UPPER@, UPPER_AMB@, avoid), 1),
        all_of_kind(class_spec(DIGITS@, DIGITS_AMB@, avoid), 2),
        all_of_kind(class_spec(SYMBOLS@, SYMBOLS_AMB@, avoid), 3),
        unambiguous(LOWER@),
        unambiguous(UPPER@),
        unambiguous(DIGITS@),
        unambiguous(SYMBOLS@),
{
    reveal_strlit("abcdefghijkmnpqrstuvwxyz");
    reveal_strlit("lo");
    reveal_strlit("ABCDEFGHJKLMNPQRSTUVWXYZ");
    reveal_strlit("IO");
    reveal_strlit("23456789");
    reveal_strlit("01");
    reveal_strlit("!@#$%^&*()-_=+[]{};:,.?/");
    reveal_strlit("|`'\"~<>\\");
}

/// Concatenating two sequences without repetition and without a common
/// element gives a sequence without repetition.
proof fn lemma_no_duplicates_add(a: Seq<char>, b: Seq<char>)
    requires
        a.no_duplicates(),
        b.no_duplicates(),
        forall|i: int, j: int| 0 <= i < a.len() && 0 <= j < b.len() ==> a[i] != b[j],
    ensures
        (a + b).no_duplicates(),
{
    let s = a + b;
    assert forall|i: int, j: int| 0 <= i < s.len() && 0 <= j < s.len() && i != j implies s[i]
        != s[j] by {
        if i < a.len() && j < a.len() {
        } else if i >= a.len() && j >= a.len() {
            assert(s[i] == b[i - a.len()]);
            assert(s[j] == b[j - a.len()]);
        } else if i < a.len() {
            assert(s[j] == b[j - a.len()]);
        } else {
            assert(s[i] == b[i - a.len()]);
        }
    }
}

/// The piece of the pool that a class contributes.
pub open spec fn piece(selected: bool, class: Seq<char>) -> Seq<char> {
    if selected {
        class
    } else {
        seq![]
    }
}

proof fn lemma_piece(selected: bool, class: Seq<char>)
    ensures
        concat_all(optional_class(selected, class)) == piece(selected, class),
{
    if selected {
        let e = Seq::<Seq<char>>::empty();
        assert(optional_class(selected, class).drop_last() =~= e);
        assert(concat_all(e) == Seq::<char>::empty());
        assert(concat_all(optional_class(selected, class)) =~= class);
    }
}

/// A piece of kind `k` shares no character with a piece of another kind.
proof fn lemma_kinds_apart(a: Seq<char>, ka: int, b: Seq<char>, kb: int)
    requires
        all_of_kind(a, ka),
        all_of_kind(b, kb),
        ka != kb,
    ensures
        forall|i: int, j: int| 0 <= i < a.len() && 0 <= j < b.len() ==> a[i] != b[j],
{
    assert forall|i: int, j: int| 0 <= i < a.len() && 0 <= j < b.len() implies a[i] != b[j] by {
        assert(kind_of(a[i]) == ka);
        assert(kind_of(b[j]) == kb);
    }
}

proof fn lemma_all_of_kind_add(a: Seq<char>, b: Seq<char>, k: int)
    requires
        all_of_kind(a, k),
        all_of_kind(b, k),
    ensures
        all_of_kind(a + b, k),
{
    assert forall|i: int| 0 <= i < (a + b).len() implies kind_of(#[trigger] (a + b)[i]) == k by {
        if i >= a.len() {
            assert((a + b)[i] == b[i - a.len()]);
        }
    }
}

/// The pool holds no character twice, whatever the options.
pub proof fn lemma_pool_distinct(opts: PasswordOptions)
    ensures
        pool_of(opts).no_duplicates(),
{
    let avoid = opts.avoid_ambiguous;
    let cl = class_spec(LOWER@, LOWER_AMB@, avoid);
    let cu = class_spec(UPPER@, UPPER_AMB@, avoid);
    let cd = class_spec(DIGITS@, DIGITS_AMB@, avoid);
    let cs = class_spec(SYMBOLS@, SYMBOLS_AMB@, avoid);
    lemma_class_facts(avoid);
    lemma_pool_pieces(opts);
    lemma_piece(opts.lowercase, cl);
    lemma_piece(opts.uppercase, cu);
    lemma_piece(opts.digits, cd);
    lemma_piece(opts.symbols, cs);
    let a = piece(opts.lowercase, cl);
    let b = piece(opts.uppercase, cu);
    let c = piece(opts.digits, cd);
    let d = piece(opts.symbols, cs);
    // Pieces carry the kind of their class; the empty piece carries any kind.
    assert(all_of_kind(a, 0));
    assert(all_of_kind(b, 1));
    assert(all_of_kind(c, 2));
    assert(all_of_kind(d, 3));
    lemma_kinds_apart(a, 0, b, 1);
    lemma_no_duplicates_add(a, b);
    // a + b holds kinds 0 and 1 only; c is of kind 2.
    assert forall|i: int, j: int| 0 <= i < (a + b).len() && 0 <= j < c.len() implies (a + b)[i]
        != c[j] by {
        assert(kind_of(c[j]) == 2);
        if i < a.len() {
            assert(kind_of((a + b)[i]) == 0);
        } else {
            assert((a + b)[i] == b[i - a.len()]);
        }
    }
    lemma_no_duplicates_add(a + b, c);
    assert forall|i: int, j: int| 0 <= i < (a + b + c).len() && 0 <= j < d.len() implies (a + b
        + c)[i] != d[j] by {
        assert(kind_of(d[j]) == 3);
        if i < a.len() {
            assert((a + b + c)[i] == a[i]);
        } else if i < a.len() + b.len() {
            assert((a + b + c)[i] == b[i - a.len()]);
        } else {
            assert((a + b + c)[i] == c[i - a.len() - b.len()]);
        }
    }
    lemma_no_duplicates_add(a + b + c, d);
}

/// With the ambiguity option set, no pool character is an ambiguous one.
pub proof fn lemma_pool_unambiguous(opts: PasswordOptions)
    requires
        opts.avoid_ambiguous,
    ensures
        unambiguous(pool_of(opts)),
{
    lemma_class_facts(true);
    lemma_pool_pieces(opts);
    lemma_piece(opts.lowercase, LOWER@);
    lemma_piece(opts.uppercase, UPPER@);
    lemma_piece(opts.digits, DIGITS@);
    lemma_piece(opts.symbols, SYMBOLS@);
    let a = piece(opts.lowercase, LOWER@);
    let b = piece(opts.uppercase, UPPER@);
    let c = piece(opts.digits, DIGITS@);
    let d = piece(opts.symbols, SYMBOLS@);
    let s = a + b + c + d;
    assert forall|i: int| 0 <= i < s.len() implies !ambiguous_chars().contains(#[trigger] s[i]) by {
        if i < a.len() {
            assert(s[i] == a[i]);
        } else if i < a.len() + b.len() {
            assert(s[i] == b[i - a.len()]);
        } else if i < a.len() + b.len() + c.len() {
            assert(s[i] == c[i - a.len() - b.len()]);
        } else {
            assert(s[i] == d[i - a.len() - b.len() - c.len()]);
        }
    }
}

} // verus!
