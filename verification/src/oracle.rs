//! What the oracle sends, and what the diary says when it sends nothing of use.
use crate::text::{
    chars_of, contains, find_char, first_of, is_space, lemma_first_of, occurs,
    occurs_at, only_blank_text_is_trimmed_away, opens, starts_with, trim, trimmed,
};
use vstd::prelude::*;

verus! {

/// What a look into the oracle's letter box finds.
pub enum Mail {
    /// Nothing yet.
    Empty,
    /// The oracle has hung up: the reply is complete.
    Closed,
    /// A chunk of the reply.
    Ink(String),
    /// The page with this number is to be conjured up.
    Show(u64),
    /// What the writer wrote, as the oracle read it.
    Transcript(String),
    /// The oracle failed, for this reason.
    Failed(String),
}

/// What the diary writes when the oracle failed for reason `e`.
pub open spec fn excuse(e: Seq<char>) -> Seq<char> {
    if occurs(e, "no oracle"@) {
        "The diary lies dormant: it found no oracle. Put an API key in oracle.env, then open me again."@
    } else if opens(e, "http 401"@) || opens(e, "http 403"@) {
        "The oracle refused the diary's key. Check RIDDLE_OPENAI_KEY in oracle.env."@
    } else if opens(e, "http "@) {
        "The oracle rejected the diary's plea ("@ + e.take(first_of(e, ':') as int)
            + "). Check the model and endpoint in oracle.env."@
    } else if occurs(e, "request failed"@) || occurs(e, "timed out"@) {
        "The diary cannot reach its oracle. Is the tablet connected to Wi-Fi?"@
    } else if occurs(e, "empty reply"@) {
        "The spirit read your words but said nothing. Write again."@
    } else {
        "The ink blurred before it could answer. Write again."@
    }
}

/// What the diary writes when the oracle cannot answer: short, in a diary's voice, but specific
/// enough to act on.
pub fn oracle_excuse(e: &str) -> (s: String)
    ensures
        s@ == excuse(e@),
{
    if contains(e, "no oracle") {
        "The diary lies dormant: it found no oracle. Put an API key in oracle.env, then open me again.".to_owned()
    } else if starts_with(e, "http 401") || starts_with(e, "http 403") {
        "The oracle refused the diary's key. Check RIDDLE_OPENAI_KEY in oracle.env.".to_owned()
    } else if starts_with(e, "http ") {
        let cs = chars_of(e);
        let end = find_char(&cs, 0, cs.len(), ':');
        assert(cs@.subrange(0, cs@.len() as int) =~= e@);
        assert(e@.subrange(0, end as int) =~= e@.take(end as int));
        let code = e.substring_char(0, end);
        let s = "The oracle rejected the diary's plea (".to_owned().concat(code);
        s.concat("). Check the model and endpoint in oracle.env.")
    } else if contains(e, "request failed") || contains(e, "timed out") {
        "The diary cannot reach its oracle. Is the tablet connected to Wi-Fi?".to_owned()
    } else if contains(e, "empty reply") {
        "The spirit read your words but said nothing. Write again.".to_owned()
    } else {
        "The ink blurred before it could answer. Write again.".to_owned()
    }
}

/// The diary is never at a loss: whatever went wrong, it has something to write.
pub proof fn excuse_is_never_empty(e: Seq<char>)
    ensures
        excuse(e).len() > 0,
{
    reveal_strlit(
        "The diary lies dormant: it found no oracle. Put an API key in oracle.env, then open me again.",
    );
    reveal_strlit("The oracle refused the diary's key. Check RIDDLE_OPENAI_KEY in oracle.env.");
    reveal_strlit("The oracle rejected the diary's plea (");
    reveal_strlit("The diary cannot reach its oracle. Is the tablet connected to Wi-Fi?");
    reveal_strlit("The spirit read your words but said nothing. Write again.");
    reveal_strlit("The ink blurred before it could answer. Write again.");
}

/// What a trial run of the oracle does with one find in the letter box.
#[derive(Clone, Copy, Debug, PartialEq, Eq, Structural)]
pub enum Trial {
    /// Look again.
    Wait,
    /// Print the chunk; `first` for the first one of the run.
    Print { first: bool },
    /// Say which page would be conjured up.
    WouldShow { id: u64 },
    /// Say how the oracle read the page.
    Transcript,
    /// Say what went wrong, and leave with exit code 1.
    Fail,
    /// The reply is complete: leave with this exit code.
    Done { code: i32 },
}

/// The exit code of a trial run that ended with the reply `got`: 1 when it is blank.
pub open spec fn trial_code(got: Seq<char>) -> i32 {
    if trimmed(got).len() == 0 {
        1
    } else {
        0
    }
}

/// What a find adds to the reply of a trial run.
pub open spec fn words_of(mail: Mail) -> Seq<char> {
    match mail {
        Mail::Ink(chunk) => chunk@,
        Mail::Show(_) => "(show)"@,
        _ => Seq::empty(),
    }
}

/// What a trial run does with a find when `got` is the reply so far.
pub open spec fn tried(got: Seq<char>, mail: Mail) -> Trial {
    match mail {
        Mail::Empty => Trial::Wait,
        Mail::Closed => Trial::Done { code: trial_code(got) },
        Mail::Ink(_) => Trial::Print { first: got.len() == 0 },
        Mail::Show(id) => Trial::WouldShow { id },
        Mail::Transcript(_) => Trial::Transcript,
        Mail::Failed(_) => Trial::Fail,
    }
}

/// One step of a trial run: take a find into the reply `got` so far, and say what to do with it.
pub fn oracle_test(got: &mut String, mail: &Mail) -> (t: Trial)
    ensures
        final(got)@ == old(got)@ + words_of(*mail),
        t == tried(old(got)@, *mail),
{
    assert(got@ + Seq::<char>::empty() =~= got@);
    match mail {
        Mail::Empty => Trial::Wait,
        Mail::Closed => {
            let rest = trim(got.as_str());
            if rest.is_empty() {
                Trial::Done { code: 1 }
            } else {
                Trial::Done { code: 0 }
            }
        },
        Mail::Ink(chunk) => {
            let first = got.as_str().is_empty();
            got.append(chunk.as_str());
            Trial::Print { first }
        },
        Mail::Show(id) => {
            got.append("(show)");
            Trial::WouldShow { id: *id }
        },
        Mail::Transcript(_) => Trial::Transcript,
        Mail::Failed(_) => Trial::Fail,
    }
}

/// The exit code with which a trial run ends that has gathered `got` and then finds `mails`, one
/// after the other; nothing while it goes on.
pub open spec fn exit_code(got: Seq<char>, mails: Seq<Mail>) -> Option<i32>
    decreases mails.len(),
{
    if mails.len() == 0 {
        None
    } else {
        match tried(got, mails[0]) {
            Trial::Fail => Some(1),
            Trial::Done { code } => Some(code),
            _ => exit_code(got + words_of(mails[0]), mails.skip(1)),
        }
    }
}

/// All that some finds add to the reply.
pub open spec fn gathered(mails: Seq<Mail>) -> Seq<char>
    decreases mails.len(),
{
    if mails.len() == 0 {
        Seq::empty()
    } else {
        words_of(mails[0]) + gathered(mails.skip(1))
    }
}

/// A trial run succeeds exactly where nothing failed and the reply is not blank: when the oracle
/// hangs up after these finds the exit code is 0, and otherwise it is 1.
pub proof fn trial_succeeds_on_words(mails: Seq<Mail>, closed: Mail)
    requires
        forall|i: int| 0 <= i < mails.len() ==> !(#[trigger] mails[i] is Closed),
        closed is Closed,
    ensures
        exit_code(Seq::empty(), mails.push(closed)) == Some(
            if (forall|i: int| 0 <= i < mails.len() ==> !(#[trigger] mails[i] is Failed))
                && trimmed(gathered(mails)).len() > 0 {
                0i32
            } else {
                1i32
            },
        ),
{
    lemma_exit_code(Seq::empty(), mails, closed);
    assert(Seq::<char>::empty() + gathered(mails) =~= gathered(mails));
}

proof fn lemma_exit_code(got: Seq<char>, mails: Seq<Mail>, closed: Mail)
    requires
        forall|i: int| 0 <= i < mails.len() ==> !(#[trigger] mails[i] is Closed),
        closed is Closed,
    ensures
        exit_code(got, mails.push(closed)) == Some(
            if (forall|i: int| 0 <= i < mails.len() ==> !(#[trigger] mails[i] is Failed))
                && trimmed(got + gathered(mails)).len() > 0 {
                0i32
            } else {
                1i32
            },
        ),
    decreases mails.len(),
{
    let all = mails.push(closed);
    if mails.len() == 0 {
        assert(got + gathered(mails) =~= got);
        assert(all[0] == closed);
    } else {
        let rest = mails.skip(1);
        assert(all[0] == mails[0]);
        assert(all.skip(1) =~= rest.push(closed));
        if mails[0] is Failed {
            assert(!(forall|i: int| 0 <= i < mails.len() ==> !(#[trigger] mails[i] is Failed)));
        } else {
            let more = got + words_of(mails[0]);
            assert forall|i: int| 0 <= i < rest.len() implies !(#[trigger] rest[i] is Closed) by {
                assert(rest[i] == mails[i + 1]);
            }
            lemma_exit_code(more, rest, closed);
            assert(more + gathered(rest) =~= got + gathered(mails));
            if forall|i: int| 0 <= i < rest.len() ==> !(#[trigger] rest[i] is Failed) {
                assert forall|i: int| 0 <= i < mails.len() implies !(#[trigger] mails[i] is Failed) by {
                    if i > 0 {
                        assert(rest[i - 1] == mails[i]);
                    }
                }
            } else {
                let i = choose|i: int| 0 <= i < rest.len() && #[trigger] rest[i] is Failed;
                assert(mails[i + 1] is Failed);
            }
        }
    }
}

proof fn lemma_whole_occurs(pat: Seq<char>)
    ensures
        occurs(pat, pat),
{
    assert(pat.subrange(0, pat.len() as int) =~= pat);
    assert(occurs_at(pat, pat, 0));
}

/// Of an oracle that has kept silent for too long the diary says that it cannot reach it.
pub proof fn excuse_for_silence()
    ensures
        excuse("timed out"@)
            == "The diary cannot reach its oracle. Is the tablet connected to Wi-Fi?"@,
{
    reveal_strlit("timed out");
    reveal_strlit("no oracle");
    reveal_strlit("http 401");
    reveal_strlit("http 403");
    reveal_strlit("http ");
    let e = "timed out"@;
    lemma_whole_occurs(e);
    assert(!occurs(e, "no oracle"@)) by {
        assert forall|i: int| !occurs_at(e, "no oracle"@, i) by {
            if i == 0 {
                assert(e.subrange(0, 9)[0] == e[0]);
            }
        }
    }
    assert(e.take(8)[0] == 't' && e.take(5)[0] == 't');
}

proof fn lemma_part_occurs(a: Seq<char>, pat: Seq<char>, b: Seq<char>)
    ensures
        occurs(a + pat + b, pat),
{
    let s = a + pat + b;
    let i = a.len() as int;
    assert(s.subrange(i, i + pat.len()) =~= pat);
    assert(occurs_at(s, pat, i));
}

/// Wherever the reason speaks of there being no oracle, the diary says how to give it one.
pub proof fn dormant_diary_asks_for_a_key(a: Seq<char>, b: Seq<char>, e: &str, s: String)
    requires
        call_ensures(oracle_excuse, (e,), s),
        e@ == a + "no oracle"@ + b,
    ensures
        s@
            == "The diary lies dormant: it found no oracle. Put an API key in oracle.env, then open me again."@,
{
    lemma_part_occurs(a, "no oracle"@, b);
}

/// A refusal with 401 or 403 is put down to the key, whatever it goes on to say.
pub proof fn refused_key_is_named(rest: Seq<char>, e: &str, s: String)
    requires
        call_ensures(oracle_excuse, (e,), s),
        e@ == "http 401"@ + rest || e@ == "http 403"@ + rest,
        !occurs(e@, "no oracle"@),
    ensures
        s@ == "The oracle refused the diary's key. Check RIDDLE_OPENAI_KEY in oracle.env."@,
{
    reveal_strlit("http 401");
    reveal_strlit("http 403");
    assert(("http 401"@ + rest).take(8) =~= "http 401"@);
    assert(("http 403"@ + rest).take(8) =~= "http 403"@);
}

/// Any other refusal is quoted by its number alone: what stands behind the colon is left out.
pub proof fn refusal_is_quoted_by_its_number(
    code: Seq<char>,
    rest: Seq<char>,
    e: &str,
    s: String,
)
    requires
        call_ensures(oracle_excuse, (e,), s),
        e@ == "http "@ + code + seq![':'] + rest,
        forall|i: int| 0 <= i < code.len() ==> #[trigger] code[i] != ':',
        code.len() >= 3,
        code.take(3) != seq!['4', '0', '1'],
        code.take(3) != seq!['4', '0', '3'],
        !occurs(e@, "no oracle"@),
    ensures
        s@ == "The oracle rejected the diary's plea ("@ + ("http "@ + code)
            + "). Check the model and endpoint in oracle.env."@,
{
    reveal_strlit("http ");
    reveal_strlit("http 401");
    reveal_strlit("http 403");
    let t = e@;
    let n = 5 + code.len() as int;
    assert(t.take(5) =~= "http "@);
    assert(t.take(8).skip(5) =~= code.take(3));
    assert("http 401"@.skip(5) =~= seq!['4', '0', '1']);
    assert("http 403"@.skip(5) =~= seq!['4', '0', '3']);
    lemma_first_of(t, ':');
    assert(t[n] == ':');
    assert forall|i: int| 0 <= i < n implies #[trigger] t[i] != ':' by {
        if i < 5 {
            assert(t[i] == "http "@[i]);
        } else {
            assert(t[i] == code[i - 5]);
        }
    }
    assert(first_of(t, ':') == n);
    assert(t.take(n) =~= "http "@ + code);
}

/// A request that failed or timed out is put down to the network.
pub proof fn lost_connection_is_named(
    a: Seq<char>,
    b: Seq<char>,
    e: &str,
    s: String,
)
    requires
        call_ensures(oracle_excuse, (e,), s),
        e@ == a + "request failed"@ + b || e@ == a + "timed out"@ + b,
        !occurs(e@, "no oracle"@),
        !opens(e@, "http "@),
    ensures
        s@ == "The diary cannot reach its oracle. Is the tablet connected to Wi-Fi?"@,
{
    lemma_part_occurs(a, "request failed"@, b);
    lemma_part_occurs(a, "timed out"@, b);
    reveal_strlit("http ");
    reveal_strlit("http 401");
    reveal_strlit("http 403");
    let t = e@;
    if opens(t, "http 401"@) || opens(t, "http 403"@) {
        assert(t.take(5) =~= t.take(8).take(5));
        assert("http 401"@.take(5) =~= "http "@);
        assert("http 403"@.take(5) =~= "http "@);
    }
}

/// A trial run gathers what it finds, in order, and fails on a failure or on a blank reply.
pub proof fn trial_gathers_in_order(got: &mut String, mail: Mail, t: Trial)
    requires
        call_ensures(oracle_test, (got, &mail), t),
    ensures
        t is Wait <==> mail is Empty,
        t is Fail <==> mail is Failed,
        t is Transcript <==> mail is Transcript,
        t is Print <==> mail is Ink,
        t is WouldShow <==> mail is Show,
        t is Done <==> mail is Closed,
        t matches Trial::Print { first } ==> (first <==> old(got)@.len() == 0),
        t matches Trial::WouldShow { id } ==> mail == Mail::Show(id),
        t matches Trial::Done { code } ==> {
            &&& code == 0 || code == 1
            &&& code == 0 <==> exists|i: int|
                0 <= i < old(got)@.len() && !is_space(#[trigger] old(got)@[i])
        },
        mail matches Mail::Ink(chunk) ==> final(got)@ == old(got)@ + chunk@,
        mail is Show ==> final(got)@ == old(got)@ + "(show)"@,
        !(mail is Ink) && !(mail is Show) ==> final(got)@ == old(got)@,
{
    let g = old(got)@;
    assert(g + Seq::<char>::empty() =~= g);
    if mail is Closed {
        only_blank_text_is_trimmed_away(g);
    }
}

/// Is the reason one that is named: that there is no oracle, that it refused, or that it could
/// not be reached?
pub open spec fn named(e: Seq<char>) -> bool {
    occurs(e, "no oracle"@) || opens(e, "http "@) || occurs(e, "request failed"@) || occurs(
        e,
        "timed out"@,
    )
}

/// An oracle that read the page and said nothing is named as such; of any other failure that has
/// no name the diary says that the ink blurred.
pub proof fn other_failures_are_a_blur(e: &str, s: String)
    requires
        call_ensures(oracle_excuse, (e,), s),
        !named(e@),
    ensures
        occurs(e@, "empty reply"@) ==> s@
            == "The spirit read your words but said nothing. Write again."@,
        !occurs(e@, "empty reply"@) ==> s@
            == "The ink blurred before it could answer. Write again."@,
{
    reveal_strlit("http ");
    reveal_strlit("http 401");
    reveal_strlit("http 403");
    let t = e@;
    if opens(t, "http 401"@) || opens(t, "http 403"@) {
        assert(t.take(5) =~= t.take(8).take(5));
        assert("http 401"@.take(5) =~= "http "@);
        assert("http 403"@.take(5) =~= "http "@);
    }
}

} // verus!
