use passmail::mailtm::{
    choose_otp, deletion_result, detail_of, err, extract_otp, html_to_text, looks_like_date,
    map_status, pick_domain, random_local_part, random_password, resp_status_is_conflict,
    status_result, summarize, summarize_all, usable_domains, AccountCreation, ApiAddress,
    ApiDomain, ApiMessage, ApiMessageDetail, MAX_ATTEMPTS,
};
use passmail::mailtm::{
    provider_of, providers, providers_for, report_failures, Attempt, Fallback, MailAccount, Provider,
};

const TM: Provider = Provider::MailTm;
const GW: Provider = Provider::MailGw;

#[test]
fn local_part_hop_le() {
    for _ in 0..100 {
        let l = random_local_part();
        assert!(l.len() >= 10 && l.len() <= 14);
        assert!(l
            .chars()
            .all(|c| c.is_ascii_lowercase() || c.is_ascii_digit()));
    }
}

#[test]
fn bo_the_html() {
    let h = "<p>Xin <b>chao</b></p><script>alert(1)</script><!-- ghichu --><style>p{color:red}</style>&nbsp;ban";
    let t = html_to_text(h);
    assert!(!t.contains('<'));
    assert!(!t.contains("alert"));
    assert!(!t.contains("ghichu"), "comment HTML chua bi loai bo");
    assert!(!t.contains("color"), "the style chua bi loai bo");
    assert!(t.contains("chao"));
}

#[test]
fn tim_otp() {
    assert_eq!(
        extract_otp("Your verification code is 481920").as_deref(),
        Some("481920")
    );
    assert_eq!(extract_otp("Ma xac thuc: 4829").as_deref(), Some("4829"));
    // khong co tu khoa, khong phai 6 chu so -> bo qua
    assert_eq!(extract_otp("Don hang 12345678 da giao"), None);
    // khong co tu khoa nhung dung 6 chu so -> van nhan
    assert_eq!(extract_otp("So don 481920").as_deref(), Some("481920"));
    assert_eq!(extract_otp("Hoa don thang 9 nam 2026"), None);
    assert_eq!(extract_otp("Khong co so nao ca"), None);
    // so dang ngay thang khong duoc coi la ma
    assert_eq!(
        extract_otp("PIN 1234 va don 20260101").as_deref(),
        Some("1234")
    );
    assert_eq!(extract_otp("Hoa don 20260101"), None);
    // ma 4 so bat dau bang 19/20 van la ma hop le khi co tu khoa
    assert_eq!(extract_otp("Your PIN is 2048").as_deref(), Some("2048"));
    assert_eq!(extract_otp("Ma xac thuc: 1999").as_deref(), Some("1999"));
    // nhung neu co ung vien khac thi chuoi giong nam bi xep sau
    assert_eq!(
        extract_otp("Your code is 481920, sent in 2026").as_deref(),
        Some("481920")
    );
    // "shipping" khong duoc coi la tu khoa "pin"
    assert_eq!(extract_otp("Your shipping order 12345678 is out"), None);
}

// ---------------------------------------------------------------------------

#[test]
fn status_messages() {
    assert_eq!(map_status(TM, 429), "mail.tm đang giới hạn tốc độ, thử lại sau vài giây");
    assert_eq!(map_status(GW, 429), "mail.gw đang giới hạn tốc độ, thử lại sau vài giây");
    assert_eq!(map_status(TM, 401), "Phiên đăng nhập hết hạn, hãy tạo địa chỉ mới");
    assert_eq!(map_status(GW, 404), "Không tìm thấy dữ liệu trên máy chủ");
    assert_eq!(
        map_status(TM, 422),
        "Máy chủ từ chối dữ liệu (địa chỉ đã tồn tại hoặc domain không hợp lệ)"
    );
    assert_eq!(map_status(TM, 500), "Máy chủ trả về lỗi 500");
    assert_eq!(map_status(GW, 0), "Máy chủ trả về lỗi 0");
    assert_eq!(err("loi"), "loi");
}

#[test]
fn conflict_only_for_existing_address() {
    assert!(resp_status_is_conflict(&map_status(TM, 422)));
    assert!(resp_status_is_conflict(&map_status(GW, 422)));
    for code in [400u16, 401, 404, 429, 500, 503] {
        assert!(!resp_status_is_conflict(&map_status(TM, code)));
        assert!(!resp_status_is_conflict(&map_status(GW, code)));
    }
}

#[test]
fn status_and_deletion_results() {
    assert_eq!(status_result(TM, 200), Ok(()));
    assert_eq!(status_result(TM, 299), Ok(()));
    assert_eq!(status_result(TM, 300), Err(map_status(TM, 300)));
    assert_eq!(status_result(GW, 429), Err(map_status(GW, 429)));
    assert_eq!(deletion_result(TM, 204), Ok(()));
    assert_eq!(deletion_result(GW, 404), Err(map_status(GW, 404)));
}

#[test]
fn random_password_shape() {
    let p = random_password();
    assert_eq!(p.chars().count(), 20);
    assert!(p.chars().all(|c| c.is_ascii_alphanumeric()));
    assert!(!p.contains('l') && !p.contains('I') && !p.contains('O') && !p.contains('0'));
}

#[test]
fn html_entities_and_whitespace() {
    assert_eq!(html_to_text("a &amp; b &lt;3&gt;"), "a & b <3>");
    assert_eq!(html_to_text("  x\n\t y  "), "x y");
    assert_eq!(html_to_text("&quot;hi&quot; &#39;yo&#39;"), "\"hi\" 'yo'");
    assert_eq!(html_to_text("<div>one</div><div>two</div>"), "one two");
    assert_eq!(html_to_text("&amp;nbsp;"), "&nbsp;");
    assert_eq!(html_to_text(""), "");
}

#[test]
fn dates_are_recognised() {
    assert!(looks_like_date("2026"));
    assert!(looks_like_date("1999"));
    assert!(looks_like_date("20260101"));
    assert!(!looks_like_date("2126"));
    assert!(!looks_like_date("202601"));
    assert!(!looks_like_date("4829"));
}

#[test]
fn choosing_among_candidates() {
    let c = |v: &[&str]| v.iter().map(|s| s.to_string()).collect::<Vec<String>>();
    assert_eq!(choose_otp(true, &c(&["1234", "123456"])).as_deref(), Some("123456"));
    assert_eq!(choose_otp(true, &c(&["2026", "12345678"])).as_deref(), Some("12345678"));
    assert_eq!(choose_otp(true, &c(&["20260101"])), None);
    assert_eq!(choose_otp(false, &c(&["1234", "12345678"])), None);
    assert_eq!(choose_otp(false, &c(&["111111", "222222"])).as_deref(), Some("111111"));
    assert_eq!(choose_otp(true, &c(&["12345", "1234567"])).as_deref(), Some("12345"));
    assert_eq!(choose_otp(true, &c(&[])), None);
}

#[test]
fn domains_filtered() {
    let d = |n: &str, a: bool, p: bool| ApiDomain { domain: n.to_string(), is_active: a, is_private: p };
    let list = vec![d("a.tm", true, false), d("b.tm", false, false), d("c.tm", true, true), d("e.tm", true, false)];
    assert_eq!(usable_domains(TM, &list), Ok(vec!["a.tm".to_string(), "e.tm".to_string()]));
    assert_eq!(
        usable_domains(TM, &vec![d("b.tm", false, false)]),
        Err("mail.tm hiện không có domain khả dụng".to_string())
    );
    assert_eq!(
        usable_domains(GW, &vec![]),
        Err("mail.gw hiện không có domain khả dụng".to_string())
    );
    let domains = vec!["a.tm".to_string(), "e.tm".to_string()];
    assert_eq!(pick_domain(&domains, Some("e.tm".to_string())), "e.tm");
    assert_eq!(pick_domain(&domains, Some("x.tm".to_string())), "a.tm");
    assert_eq!(pick_domain(&domains, None), "a.tm");
}

#[test]
fn account_creation_attempts() {
    let domains = vec!["mail.tm".to_string()];
    let mut c = AccountCreation::start(GW, &domains, Some("  MyName ".to_string()), None).unwrap();
    assert_eq!(c.password.chars().count(), 20);
    assert_eq!(c.next_address().as_deref(), Some("myname@mail.tm"));
    assert!(c.on_rejected(422));
    assert_eq!(c.last_err, map_status(GW, 422));
    let second = c.next_address().unwrap();
    assert!(second.ends_with("@mail.tm"));
    assert_ne!(second, "myname@mail.tm");
    assert!(!c.on_rejected(429));
    assert_eq!(c.last_err, map_status(GW, 429));
    let _ = c.next_address();
    let _ = c.next_address();
    assert_eq!(c.attempt, MAX_ATTEMPTS);
    assert_eq!(c.next_address(), None);
    let acc = c.finish("id1".to_string(), "x@mail.tm".to_string(), "tok".to_string());
    assert_eq!(acc.id, "id1");
    assert_eq!(acc.token, "tok");
    assert_eq!(acc.base, "https://api.mail.gw");
    assert_eq!(provider_of(&acc), GW);

    let mut blank =
        AccountCreation::start(TM, &domains, Some("   ".to_string()), Some("mail.tm".to_string())).unwrap();
    let a = blank.next_address().unwrap();
    let local = a.strip_suffix("@mail.tm").unwrap();
    assert!(local.len() >= 10 && local.len() <= 14);
}

#[test]
fn summaries_and_details() {
    let m = ApiMessage {
        id: "m1".to_string(),
        from: Some(ApiAddress { address: "a@b.c".to_string(), name: "Alice".to_string() }),
        subject: "Your code".to_string(),
        intro: "is 654321".to_string(),
        seen: false,
        created_at: "2026-01-01".to_string(),
        has_attachments: true,
    };
    let s = summarize(&m);
    assert_eq!(s.id, "m1");
    assert_eq!(s.from_name, "Alice");
    assert_eq!(s.from_address, "a@b.c");
    assert_eq!(s.otp.as_deref(), Some("654321"));
    assert!(s.has_attachments);
    let anon = ApiMessage { from: None, subject: "hello".to_string(), intro: "2026".to_string(), ..m.clone() };
    let all = summarize_all(&vec![m, anon]);
    assert_eq!(all.len(), 2);
    assert_eq!(all[1].from_name, "");
    assert_eq!(all[1].otp, None);

    let d = ApiMessageDetail {
        id: "d1".to_string(),
        from: None,
        subject: "Verify".to_string(),
        created_at: "t".to_string(),
        text: "   ".to_string(),
        html: vec!["<p>Code:</p>".to_string(), "<b>4829</b>".to_string()],
    };
    let det = detail_of(&d);
    assert_eq!(det.text, "Code: 4829");
    assert_eq!(det.otp.as_deref(), Some("4829"));
    let plain = ApiMessageDetail { text: "  hi there \n".to_string(), ..d.clone() };
    assert_eq!(detail_of(&plain).text, "hi there");
}

#[test]
fn urls_of_the_api() {
    assert_eq!(passmail::mailtm::api_url(TM, "/domains?page=1"), "https://api.mail.tm/domains?page=1");
    assert_eq!(passmail::mailtm::api_url(GW, "/token"), "https://api.mail.gw/token");
}

#[test]
fn providers_in_order_and_per_account() {
    assert_eq!(providers(), vec![TM, GW]);
    assert_eq!(providers_for(&None), vec![TM, GW]);
    assert_eq!(providers_for(&Some("https://api.mail.gw".to_string())), vec![GW]);
    assert_eq!(providers_for(&Some("https://api.mail.tm".to_string())), vec![TM]);
    assert_eq!(providers_for(&Some("elsewhere".to_string())), vec![TM, GW]);
    let legacy = MailAccount {
        id: "i".to_string(),
        address: "a@b".to_string(),
        password: "p".to_string(),
        token: "t".to_string(),
        base: String::new(),
    };
    assert_eq!(provider_of(&legacy), TM);
    assert_eq!(TM.name(), "mail.tm");
    assert_eq!(GW.base(), "https://api.mail.gw");
    assert_eq!(Provider::from_base("https://api.mail.tm"), Some(TM));
    assert_eq!(Provider::from_base("https://api.mail.tm/"), None);
}

#[test]
fn failures_are_reported_per_provider() {
    let one = vec![(TM, "loi A".to_string())];
    assert_eq!(report_failures(&one), "loi A");
    let both = vec![(TM, "loi A".to_string()), (GW, "loi B".to_string())];
    assert_eq!(report_failures(&both), "mail.tm: loi A; mail.gw: loi B");
}

#[test]
fn creation_without_domains_is_refused() {
    let none: Vec<String> = vec![];
    let r = AccountCreation::start(GW, &none, None, None);
    assert_eq!(r.err(), Some("mail.gw hiện không có domain khả dụng".to_string()));
}

#[test]
fn uppercase_desired_name_is_lowered() {
    let domains = vec!["x.gw".to_string()];
    let mut c = AccountCreation::start(TM, &domains, Some("PIN Code9".to_string()), None).unwrap();
    assert_eq!(c.next_address().as_deref(), Some("pin code9@x.gw"));
}

#[test]
fn fallback_tries_each_provider_then_reports_all() {
    let mut f = Fallback::new(providers());
    assert!(matches!(f.next(), Attempt::Try(Provider::MailTm)));
    assert!(matches!(f.failed("loi A".to_string()), Attempt::Try(Provider::MailGw)));
    match f.failed("loi B".to_string()) {
        Attempt::GiveUp(m) => assert_eq!(m, "mail.tm: loi A; mail.gw: loi B"),
        Attempt::Try(_) => panic!("every provider has failed"),
    }
    assert_eq!(f.failures.len(), 2);
    match f.failed("loi C".to_string()) {
        Attempt::GiveUp(m) => assert_eq!(m, "mail.tm: loi A; mail.gw: loi B"),
        Attempt::Try(_) => panic!("every provider has failed"),
    }
}

#[test]
fn fallback_with_one_provider_reports_its_own_error() {
    let mut f = Fallback::new(providers_for(&Some("https://api.mail.gw".to_string())));
    assert!(matches!(f.next(), Attempt::Try(Provider::MailGw)));
    match f.failed("Sai mật khẩu".to_string()) {
        Attempt::GiveUp(m) => assert_eq!(m, "Sai mật khẩu"),
        Attempt::Try(_) => panic!("the only provider has failed"),
    }
}
