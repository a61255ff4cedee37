use passmail::commands::{
    connection_summary, generate_batch, notification_for, session_expired, AppState, MAX_BATCH,
};
use passmail::mailtm::{map_status, MailAccount, MailSummary, Provider};
use passmail::password::{PasswordError, PasswordOptions};

fn acc(address: &str) -> MailAccount {
    MailAccount {
        id: "id".to_string(),
        address: address.to_string(),
        password: "pw".to_string(),
        token: "t0".to_string(),
        base: "https://api.mail.gw".to_string(),
    }
}

fn msg(id: &str) -> MailSummary {
    MailSummary {
        id: id.to_string(),
        from_name: String::new(),
        from_address: "x@y.z".to_string(),
        subject: "Hi".to_string(),
        intro: String::new(),
        seen: false,
        created_at: String::new(),
        has_attachments: false,
        otp: None,
    }
}

#[test]
fn token_of_active_account() {
    let mut s = AppState::new();
    assert_eq!(
        s.token_of(),
        Err("Chua co dia chi email nao, hay tao mot dia chi truoc".to_string())
    );
    s.activate(acc("a@b.c"));
    assert_eq!(s.token_of(), Ok("t0".to_string()));
    assert_eq!(
        s.destroy_target(),
        Some((Provider::MailGw, "t0".to_string(), "id".to_string()))
    );
    assert_eq!(s.credentials(), Ok((Provider::MailGw, "t0".to_string())));
    s.clear_account();
    assert!(s.token_of().is_err());
    assert_eq!(s.destroy_target(), None);
}

#[test]
fn refresh_only_same_address() {
    let mut s = AppState::new();
    s.activate(acc("a@b.c"));
    s.refresh_token("other@b.c", "t1".to_string());
    assert_eq!(s.token_of(), Ok("t0".to_string()));
    s.refresh_token("a@b.c", "t2".to_string());
    assert_eq!(s.token_of(), Ok("t2".to_string()));
}

#[test]
fn announce_each_message_once() {
    let mut s = AppState::new();
    s.activate(acc("a@b.c"));
    let inbox = vec![msg("1"), msg("2"), msg("1")];
    let fresh = s.register_fresh(&inbox);
    assert_eq!(fresh.iter().map(|m| m.id.as_str()).collect::<Vec<_>>(), vec!["1", "2"]);
    assert!(s.register_fresh(&inbox).is_empty());
    let more = vec![msg("2"), msg("3")];
    let fresh = s.register_fresh(&more);
    assert_eq!(fresh.len(), 1);
    assert_eq!(fresh[0].id, "3");
    s.activate(acc("a@b.c"));
    assert_eq!(s.register_fresh(&inbox).len(), 2);
}

#[test]
fn notified_ids_are_capped() {
    let mut s = AppState::new();
    let many: Vec<MailSummary> = (0..250).map(|i| msg(&i.to_string())).collect();
    assert_eq!(s.register_fresh(&many).len(), 250);
    assert_eq!(s.notified.len(), 200);
    assert_eq!(s.notified[0], "50");
    assert_eq!(s.notified[199], "249");
}

#[test]
fn expired_session_detection() {
    assert!(session_expired(&map_status(Provider::MailTm, 401)));
    assert!(session_expired(&map_status(Provider::MailGw, 401)));
    assert!(session_expired("Phiên đăng nhập hết hạn"));
    assert!(!session_expired("loi mang"));
    for code in [404u16, 422, 429, 500] {
        assert!(!session_expired(&map_status(Provider::MailTm, code)));
    }
}

#[test]
fn notification_text() {
    let mut m = msg("1");
    let (title, body) = notification_for(&m);
    assert_eq!(title, "Thư mới từ x@y.z");
    assert_eq!(body, "Hi");
    m.from_name = "Bob".to_string();
    m.otp = Some("123456".to_string());
    let (title, body) = notification_for(&m);
    assert_eq!(title, "Thư mới từ Bob");
    assert_eq!(body, "Mã: 123456 — Hi");
}

#[test]
fn connection_line() {
    let d = vec!["a.tm".to_string(), "b.tm".to_string()];
    assert_eq!(connection_summary(&d), "Ket noi tot — 2 domain kha dung (vi du: a.tm)");
}

#[test]
fn batch_size_is_clamped() {
    let o = PasswordOptions {
        length: 10,
        lowercase: true,
        uppercase: false,
        digits: true,
        symbols: false,
        avoid_ambiguous: false,
        no_repeat: false,
    };
    assert_eq!(generate_batch(&o, 0).unwrap().len(), 1);
    assert_eq!(generate_batch(&o, 5).unwrap().len(), 5);
    assert_eq!(generate_batch(&o, 1000).unwrap().len(), MAX_BATCH);
    for p in generate_batch(&o, 20).unwrap() {
        assert_eq!(p.chars().count(), 10);
    }
    let bad = PasswordOptions { length: 2, ..o };
    assert_eq!(generate_batch(&bad, 5), Err(PasswordError::InvalidLength));
}
