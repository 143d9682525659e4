use riddle::oracle::{oracle_excuse, oracle_test, Mail, Trial};

#[test]
fn each_failure_has_its_excuse() {
    let dormant = "The diary lies dormant: it found no oracle. Put an API key in oracle.env, then open me again.";
    let refused = "The oracle refused the diary's key. Check RIDDLE_OPENAI_KEY in oracle.env.";
    let away = "The diary cannot reach its oracle. Is the tablet connected to Wi-Fi?";
    let silent = "The spirit read your words but said nothing. Write again.";
    let blurred = "The ink blurred before it could answer. Write again.";
    assert_eq!(oracle_excuse("no oracle"), dormant);
    assert_eq!(oracle_excuse("http 401: no oracle here"), dormant);
    assert_eq!(oracle_excuse("http 401: bad key"), refused);
    assert_eq!(oracle_excuse("http 403"), refused);
    assert_eq!(oracle_excuse("request failed: dns"), away);
    assert_eq!(oracle_excuse("it timed out"), away);
    assert_eq!(oracle_excuse("empty reply"), silent);
    assert_eq!(oracle_excuse("lost page"), blurred);
    assert_eq!(oracle_excuse(""), blurred);
    assert_eq!(oracle_excuse("HTTP 401"), blurred);
}

#[test]
fn a_rejection_is_quoted_up_to_its_colon() {
    assert_eq!(
        oracle_excuse("http 404: model not found: x"),
        "The oracle rejected the diary's plea (http 404). Check the model and endpoint in oracle.env."
    );
    assert_eq!(
        oracle_excuse("http 500"),
        "The oracle rejected the diary's plea (http 500). Check the model and endpoint in oracle.env."
    );
}

#[test]
fn the_diary_is_never_at_a_loss() {
    for e in ["", "http ", "http 401", "timed out", "empty reply", "no oracle", "?"] {
        assert!(!oracle_excuse(e).is_empty());
    }
}

#[test]
fn a_trial_gathers_the_reply() {
    let mut got = String::new();
    assert_eq!(oracle_test(&mut got, &Mail::Empty), Trial::Wait);
    assert_eq!(oracle_test(&mut got, &Mail::Ink("Hel".to_string())), Trial::Print { first: true });
    assert_eq!(oracle_test(&mut got, &Mail::Ink("lo".to_string())), Trial::Print { first: false });
    assert_eq!(oracle_test(&mut got, &Mail::Transcript("hi".to_string())), Trial::Transcript);
    assert_eq!(oracle_test(&mut got, &Mail::Show(5)), Trial::WouldShow { id: 5 });
    assert_eq!(got, "Hello(show)");
    assert_eq!(oracle_test(&mut got, &Mail::Closed), Trial::Done { code: 0 });
}

#[test]
fn a_trial_is_judged_by_its_whole_reply() {
    let run = |mails: Vec<Mail>| {
        let mut got = String::new();
        for mail in &mails {
            match oracle_test(&mut got, mail) {
                Trial::Fail => return Some(1),
                Trial::Done { code } => return Some(code),
                _ => {}
            }
        }
        None
    };
    let ink = |s: &str| Mail::Ink(s.to_string());
    assert_eq!(run(vec![ink(" "), ink("a"), Mail::Closed]), Some(0));
    assert_eq!(run(vec![Mail::Show(1), Mail::Closed]), Some(0));
    assert_eq!(run(vec![ink(" "), Mail::Transcript("a".to_string()), Mail::Closed]), Some(1));
    assert_eq!(run(vec![ink("a"), Mail::Failed("x".to_string()), Mail::Closed]), Some(1));
    assert_eq!(run(vec![ink("a"), Mail::Empty]), None);
}

#[test]
fn a_trial_without_words_fails() {
    let mut got = String::new();
    assert_eq!(oracle_test(&mut got, &Mail::Closed), Trial::Done { code: 1 });
    oracle_test(&mut got, &Mail::Ink(" \n".to_string()));
    assert_eq!(oracle_test(&mut got, &Mail::Closed), Trial::Done { code: 1 });
    assert_eq!(oracle_test(&mut got, &Mail::Failed("http 500".to_string())), Trial::Fail);
    assert_eq!(got, " \n");
}
