use passmail::password::{
    class_chars, covers_all, generate_passphrase, generate_password, EntropyBasis,
    PassphraseOptions, PasswordError, PasswordOptions, DIGITS, DIGITS_AMB, LOWER, LOWER_AMB,
    SYMBOLS, SYMBOLS_AMB,
};
use passmail::random::{partial_shuffle, pick_chars};
use passmail::wordlist::words;

fn opts(len: usize) -> PasswordOptions {
    PasswordOptions {
        length: len,
        lowercase: true,
        uppercase: true,
        digits: true,
        symbols: true,
        avoid_ambiguous: false,
        no_repeat: false,
    }
}

#[test]
fn do_dai_dung() {
    for len in [4usize, 12, 32, 128] {
        let p = generate_password(&opts(len)).unwrap();
        assert_eq!(p.value.chars().count(), len);
    }
}

#[test]
fn du_moi_nhom_ky_tu() {
    for _ in 0..200 {
        let p = generate_password(&opts(8)).unwrap();
        assert!(p.value.chars().any(|c| c.is_ascii_lowercase()));
        assert!(p.value.chars().any(|c| c.is_ascii_uppercase()));
        assert!(p.value.chars().any(|c| c.is_ascii_digit()));
        assert!(p
            .value
            .chars()
            .any(|c| SYMBOLS.contains(c) || SYMBOLS_AMB.contains(c)));
    }
}

#[test]
fn tranh_ky_tu_nham_lan() {
    let mut o = opts(60);
    o.avoid_ambiguous = true;
    let p = generate_password(&o).unwrap();
    for c in "0O1lI|`'\"~<>\\".chars() {
        assert!(!p.value.contains(c), "van con ky tu {}", c);
    }
}

#[test]
fn khong_lap_ky_tu() {
    let mut o = opts(20);
    o.no_repeat = true;
    let p = generate_password(&o).unwrap();
    let mut seen: Vec<char> = p.value.chars().collect();
    seen.sort_unstable();
    let before = seen.len();
    seen.dedup();
    assert_eq!(before, seen.len());
}

#[test]
fn bao_loi_khi_khong_lap_ma_qua_dai() {
    let mut o = opts(128);
    o.no_repeat = true;
    let e = generate_password(&o).unwrap_err().message();
    assert!(e.contains("94"), "thong bao loi khong neu gioi han: {}", e);
}

#[test]
fn moi_ky_tu_trong_pool_deu_co_the_xuat_hien() {
    // Kiem tra khong ky tu nao bi thuat toan bo quen
    let mut thay = std::collections::HashSet::new();
    for _ in 0..400 {
        for c in generate_password(&opts(40)).unwrap().value.chars() {
            thay.insert(c);
        }
    }
    assert_eq!(thay.len(), 94, "chi thay {} / 94 ky tu", thay.len());
}

#[test]
fn tu_choi_khi_khong_chon_nhom_nao() {
    let mut o = opts(12);
    o.lowercase = false;
    o.uppercase = false;
    o.digits = false;
    o.symbols = false;
    assert!(generate_password(&o).is_err());
}

#[test]
fn passphrase_dung_so_tu() {
    let p = generate_passphrase(&PassphraseOptions {
        words: 7,
        separator: "-".into(),
        capitalize: true,
        add_number: false,
    })
    .unwrap();
    assert_eq!(p.value.split('-').count(), 7);
    // 7 tu tu danh sach 410 am tiet phai vuot 60 bit
    let entropy_bits = match p.basis {
        EntropyBasis::Words { count, list_size, with_number } => {
            assert_eq!((count, list_size, with_number), (7, p.pool_size, false));
            (list_size as f64).log2() * count as f64
        }
        EntropyBasis::Characters { .. } => panic!("a passphrase rests on its words"),
    };
    assert!(entropy_bits > 60.0, "entropy qua thap: {}", entropy_bits);
    assert!(generate_passphrase(&PassphraseOptions {
        words: 3,
        separator: "-".into(),
        capitalize: false,
        add_number: false,
    })
    .is_err());
}

#[test]
fn passphrase_dau_noi_rong_thi_viet_lien() {
    let p = generate_passphrase(&PassphraseOptions {
        words: 5,
        separator: String::new(),
        capitalize: false,
        add_number: false,
    })
    .unwrap();
    assert!(
        !p.value.contains('-'),
        "van chen dau gach ngang: {}",
        p.value
    );
    assert!(p.value.chars().all(|c| c.is_ascii_lowercase()));
}

#[test]
fn wordlist_khong_trung_lap() {
    let mut v: Vec<String> = words();
    let n = v.len();
    v.sort_unstable();
    v.dedup();
    assert_eq!(n, v.len());
    assert!(n >= 256);
}

// ---------------------------------------------------------------------------

#[test]
fn error_for_each_invalid_option() {
    assert_eq!(generate_password(&opts(3)).unwrap_err(), PasswordError::InvalidLength);
    assert_eq!(generate_password(&opts(129)).unwrap_err(), PasswordError::InvalidLength);
    let mut none = opts(12);
    none.lowercase = false;
    none.uppercase = false;
    none.digits = false;
    none.symbols = false;
    assert_eq!(generate_password(&none).unwrap_err(), PasswordError::NoClassSelected);
    let mut digits_only = opts(11);
    digits_only.lowercase = false;
    digits_only.uppercase = false;
    digits_only.symbols = false;
    digits_only.no_repeat = true;
    assert_eq!(
        generate_password(&digits_only).unwrap_err(),
        PasswordError::NoRepeatTooLong { max: 10 }
    );
    digits_only.avoid_ambiguous = true;
    digits_only.length = 8;
    let p = generate_password(&digits_only).unwrap();
    let mut cs: Vec<char> = p.value.chars().collect();
    cs.sort_unstable();
    assert_eq!(cs.iter().collect::<String>(), "23456789");
}

#[test]
fn error_messages() {
    assert_eq!(
        PasswordError::InvalidLength.message(),
        "Độ dài mật khẩu phải từ 4 đến 128 ký tự"
    );
    assert_eq!(PasswordError::NoClassSelected.message(), "Cần chọn ít nhất một nhóm ký tự");
    assert_eq!(
        PasswordError::NoRepeatTooLong { max: 94 }.message(),
        "Không lặp ký tự thì độ dài tối đa là 94 với các nhóm đang chọn"
    );
    assert_eq!(PasswordError::InvalidWordCount.message(), "Số từ phải từ 4 đến 15");
    assert_eq!(
        PasswordError::TooShortForClasses.message(),
        "Độ dài quá ngắn so với số nhóm ký tự đã chọn"
    );
    assert!(PasswordError::Unsatisfiable.message().starts_with("Không sinh được mật khẩu"));
}

#[test]
fn basis_of_password() {
    let mut o = opts(16);
    o.avoid_ambiguous = true;
    let p = generate_password(&o).unwrap();
    assert_eq!(p.pool_size, 80);
    match p.basis {
        EntropyBasis::Characters { class_sizes, length, distinct } => {
            assert_eq!(class_sizes, vec![24, 24, 8, 24]);
            assert_eq!(length, 16);
            assert!(!distinct);
        }
        _ => panic!("wrong basis"),
    }
    let q = generate_password(&opts(16)).unwrap();
    assert_eq!(q.pool_size, 94);
}

#[test]
fn class_chars_appends_ambiguous_unless_avoided() {
    assert_eq!(class_chars(LOWER, LOWER_AMB, true).len(), 24);
    assert_eq!(class_chars(LOWER, LOWER_AMB, false).len(), 26);
    let v = class_chars(DIGITS, DIGITS_AMB, false);
    assert_eq!(v.iter().collect::<String>(), "2345678901");
}

#[test]
fn covers_all_needs_each_class() {
    let classes = vec![vec!['a', 'b'], vec!['1', '2']];
    assert!(covers_all(&['b', '2'], &classes));
    assert!(!covers_all(&['a', 'b'], &classes));
    assert!(covers_all(&['x'], &[]));
}

#[test]
fn passphrase_capitalized_with_number() {
    let p = generate_passphrase(&PassphraseOptions {
        words: 6,
        separator: ".".into(),
        capitalize: true,
        add_number: true,
    })
    .unwrap();
    let parts: Vec<&str> = p.value.split('.').collect();
    assert_eq!(parts.len(), 6);
    for w in &parts {
        assert!(w.chars().next().unwrap().is_ascii_uppercase(), "{}", w);
    }
    let with_digits = parts.iter().filter(|w| w.chars().any(|c| c.is_ascii_digit())).count();
    assert_eq!(with_digits, 1);
    match p.basis {
        EntropyBasis::Words { count, list_size, with_number } => {
            assert_eq!(count, 6);
            assert_eq!(list_size, 410);
            assert!(with_number);
        }
        _ => panic!("wrong basis"),
    }
    assert_eq!(
        generate_passphrase(&PassphraseOptions {
            words: 16,
            separator: "-".into(),
            capitalize: false,
            add_number: false,
        })
        .unwrap_err(),
        PasswordError::InvalidWordCount
    );
}

#[test]
fn word_list_is_lowercase_ascii() {
    let list = words();
    assert_eq!(list.len(), 410);
    assert!(list.iter().all(|w| !w.is_empty() && w.chars().all(|c| c.is_ascii_lowercase())));
}

#[test]
fn passphrase_words_come_from_the_list() {
    let p = generate_passphrase(&PassphraseOptions {
        words: 15,
        separator: " ".into(),
        capitalize: false,
        add_number: false,
    })
    .unwrap();
    let list = words();
    for w in p.value.split(' ') {
        assert!(list.iter().any(|x| x == w), "{}", w);
    }
}

#[test]
fn avoiding_ambiguity_leaves_out_lowercase_o() {
    let mut o = opts(100);
    o.avoid_ambiguous = true;
    for _ in 0..20 {
        let p = generate_password(&o).unwrap();
        assert!(!p.value.contains('o') && !p.value.contains('l'), "{}", p.value);
    }
}

#[test]
fn forced_draws_always_succeed() {
    let mut one = opts(16);
    one.uppercase = false;
    one.digits = false;
    one.symbols = false;
    for _ in 0..50 {
        let p = generate_password(&one).unwrap();
        assert_eq!(p.pool_size, 26);
        assert!(p.value.chars().all(|c| c.is_ascii_lowercase()));
    }
    let mut digits = opts(10);
    digits.lowercase = false;
    digits.uppercase = false;
    digits.symbols = false;
    digits.no_repeat = true;
    let p = generate_password(&digits).unwrap();
    let mut cs: Vec<char> = p.value.chars().collect();
    cs.sort_unstable();
    assert_eq!(cs.iter().collect::<String>(), "0123456789");
    assert_eq!(p.pool_size, 10);
}

#[test]
fn drawn_positions_pick_their_characters() {
    let pool = ['a', 'b', 'c', 'd'];
    assert_eq!(pick_chars(&pool, &vec![3, 0, 3, 1]), vec!['d', 'a', 'd', 'b']);
    assert_eq!(pick_chars(&pool, &vec![]), Vec::<char>::new());
}

#[test]
fn partial_shuffle_follows_its_offsets() {
    let pool = ['a', 'b', 'c', 'd', 'e'];
    // step 0 swaps 0 and 2, step 1 swaps 1 and 4, step 2 keeps position 2
    assert_eq!(partial_shuffle(&pool, &vec![2, 3, 0]), vec!['c', 'e', 'a']);
    assert_eq!(partial_shuffle(&pool, &vec![0, 0, 0, 0, 0]), pool.to_vec());
    let all = partial_shuffle(&pool, &vec![4, 3, 2, 1, 0]);
    let mut sorted = all.clone();
    sorted.sort();
    assert_eq!(sorted, pool.to_vec());
    assert_eq!(all, vec!['e', 'a', 'b', 'c', 'd']);
}
