//! Numbers as text, and messages as text for the log of the process.

use crate::types::{Message, MessageView};
use vstd::prelude::*;
use vstd::string::*;

verus! {

/// The character for a digit.
pub open spec fn digit(d: nat) -> char {
    if d == 0 {
        '0'
    } else if d == 1 {
        '1'
    } else if d == 2 {
        '2'
    } else if d == 3 {
        '3'
    } else if d == 4 {
        '4'
    } else if d == 5 {
        '5'
    } else if d == 6 {
        '6'
    } else if d == 7 {
        '7'
    } else if d == 8 {
        '8'
    } else {
        '9'
    }
}

/// A number in decimal.
pub open spec fn decimal(n: nat) -> Seq<char>
    decreases n,
{
    if n < 10 {
        seq![digit(n)]
    } else {
        decimal(n / 10).push(digit(n % 10))
    }
}

fn digit_text(d: u64) -> (text: &'static str)
    requires
        d < 10,
    ensures
        text@ == seq![digit(d as nat)],
{
    proof {
        reveal_strlit("0");
        reveal_strlit("1");
        reveal_strlit("2");
        reveal_strlit("3");
        reveal_strlit("4");
        reveal_strlit("5");
        reveal_strlit("6");
        reveal_strlit("7");
        reveal_strlit("8");
        reveal_strlit("9");
    }
    let text = if d == 0 {
        "0"
    } else if d == 1 {
        "1"
    } else if d == 2 {
        "2"
    } else if d == 3 {
        "3"
    } else if d == 4 {
        "4"
    } else if d == 5 {
        "5"
    } else if d == 6 {
        "6"
    } else if d == 7 {
        "7"
    } else if d == 8 {
        "8"
    } else {
        "9"
    };
    assert(text@ =~= seq![digit(d as nat)]);
    text
}

/// Appends a number in decimal.
pub fn push_decimal(text: &mut String, n: u64)
    ensures
        final(text)@ == old(text)@ + decimal(n as nat),
    decreases n,
{
    if n >= 10 {
        push_decimal(text, n / 10);
    }
    text.append(digit_text(n % 10));
    assert(text@ =~= old(text)@ + decimal(n as nat));
}

/// Whether all characters are digits.
pub open spec fn all_digits(text: Seq<char>) -> bool {
    forall|i: int| 0 <= i < text.len() ==> '0' <= #[trigger] text[i] <= '9'
}

/// The number that digits spell.
pub open spec fn digits_value(text: Seq<char>) -> nat
    decreases text.len(),
{
    if text.len() == 0 {
        0
    } else {
        10 * digits_value(text.drop_last()) + (text.last() as nat - '0' as nat) as nat
    }
}

/// The text without a plus sign in front.
pub open spec fn without_plus(text: Seq<char>) -> Seq<char> {
    if text.len() > 0 && text[0] == '+' {
        text.skip(1)
    } else {
        text
    }
}

/// The number of 64 bits that a text stands for: digits, which a plus sign may precede.
pub open spec fn parsed(text: Seq<char>) -> Option<u64> {
    let digits = without_plus(text);
    if digits.len() > 0 && all_digits(digits) && digits_value(digits) <= u64::MAX {
        Some(digits_value(digits) as u64)
    } else {
        None
    }
}

proof fn lemma_digits_grow(text: Seq<char>, i: int)
    requires
        0 <= i <= text.len(),
        all_digits(text),
    ensures
        digits_value(text.take(i)) <= digits_value(text),
    decreases text.len() - i,
{
    if i < text.len() {
        lemma_digits_grow(text, i + 1);
        assert(text.take(i + 1).drop_last() =~= text.take(i));
    } else {
        assert(text.take(i) =~= text);
    }
}

/// Reads a number.
pub fn parse_number(text: &str) -> (number: Option<u64>)
    ensures
        number == parsed(text@),
{
    let length: usize = text.unicode_len();
    let start: usize = if length > 0 && text.get_char(0) == '+' {
        1
    } else {
        0
    };
    let ghost digits = without_plus(text@);
    assert(digits =~= text@.skip(start as int));
    if start == length {
        return None;
    }
    let mut n: u64 = 0;
    let mut i: usize = start;
    assert(digits.take(0) =~= Seq::<char>::empty());
    while i < length
        invariant
            length == text@.len(),
            start <= i <= length,
            start <= 1,
            digits == text@.skip(start as int),
            digits == without_plus(text@),
            all_digits(digits.take(i - start)),
            n == digits_value(digits.take(i - start)),
        decreases length - i,
    {
        let c = text.get_char(i);
        let ghost k = i - start;
        assert(digits[k] == c);
        assert(digits.take(k + 1).drop_last() =~= digits.take(k));
        if !('0' <= c && c <= '9') {
            assert(!all_digits(digits)) by {
                assert(digits[k] == c);
            }
            return None;
        }
        let d: u64 = c as u64 - '0' as u64;
        assert(digits_value(digits.take(k + 1)) == 10 * n + d);
        if n > (u64::MAX - d) / 10 {
            proof {
                if all_digits(digits) {
                    lemma_digits_grow(digits, k + 1);
                }
            }
            return None;
        }
        n = 10 * n + d;
        i = i + 1;
        assert forall|j: int| 0 <= j < k + 1 implies '0' <= #[trigger] digits.take(k + 1)[j]
            <= '9' by {
            if j < k {
                assert(digits.take(k)[j] == digits[j]);
            }
        }
    }
    assert(digits.take(i - start) =~= digits);
    Some(n)
}

/// A number in decimal is read back as that number, with a plus sign in front or without. It has no
/// needless zero in front.
pub proof fn law_numbers_are_read_back(n: u64)
    ensures
        parsed(decimal(n as nat)) == Some(n),
        parsed(seq!['+'] + decimal(n as nat)) == Some(n),
        all_digits(decimal(n as nat)),
        decimal(n as nat).len() > 1 ==> decimal(n as nat)[0] != '0',
{
    let text = decimal(n as nat);
    lemma_decimal(n as nat);
    assert('0' <= text[0] <= '9');
    assert((seq!['+'] + text).skip(1) =~= text);
}

proof fn lemma_decimal(n: nat)
    ensures
        decimal(n).len() >= 1,
        all_digits(decimal(n)),
        digits_value(decimal(n)) == n,
        n > 0 ==> decimal(n)[0] != '0',
        n < 10 ==> decimal(n).len() == 1,
    decreases n,
{
    let text = decimal(n);
    if n < 10 {
        assert(text.drop_last() =~= Seq::<char>::empty());
        assert(digits_value(text.drop_last()) == 0);
    } else {
        lemma_decimal(n / 10);
        let front = decimal(n / 10);
        assert(text.drop_last() =~= front);
        assert forall|i: int| 0 <= i < text.len() implies '0' <= #[trigger] text[i] <= '9' by {
            if i < front.len() {
                assert('0' <= front[i] <= '9');
            }
        }
        assert(text[0] == front[0]);
    }
}

/// What is read as a number is read from left to right, each digit after the others: one more digit
/// makes it ten times as much and that digit more, unless that is more than 64 bits hold. No text,
/// a plus sign alone, and anything but digits after it stand for no number.
pub proof fn law_numbers_are_read_digit_by_digit(text: Seq<char>, c: char, i: int)
    ensures
        parsed(Seq::<char>::empty()) is None,
        parsed(seq!['+']) is None,
        parsed(seq![c]) == if '0' <= c <= '9' {
            Some((c as nat - '0' as nat) as u64)
        } else {
            None
        },
        parsed(text) matches Some(n) ==> parsed(text.push(c)) == if '0' <= c <= '9' && 10 * n + (
        c as nat - '0' as nat) <= u64::MAX {
            Some((10 * n + (c as nat - '0' as nat)) as u64)
        } else {
            None
        },
        0 <= i < text.len() && !('0' <= text[i] <= '9') && !(i == 0 && text[0] == '+')
            ==> parsed(text) is None,
{
    let one = seq![c];
    assert(one.drop_last() =~= Seq::<char>::empty());
    assert(seq!['+'].skip(1) =~= Seq::<char>::empty());
    assert(digits_value(one.drop_last()) == 0);
    assert(without_plus(Seq::<char>::empty()).len() == 0);
    if c == '+' {
        assert(one.skip(1) =~= Seq::<char>::empty());
    } else {
        assert(one[0] == c);
    }
    let digits = without_plus(text);
    if 0 <= i < text.len() && !('0' <= text[i] <= '9') && !(i == 0 && text[0] == '+') {
        if text[0] == '+' {
            assert(digits[i - 1] == text[i]);
        }
    }
    if parsed(text) is Some {
        let more = without_plus(text.push(c));
        assert(text.len() > 0);
        assert(text.push(c)[0] == text[0]);
        assert(more =~= digits.push(c));
        assert(more.drop_last() =~= digits);
        assert(more[digits.len() as int] == c);
        assert forall|j: int| 0 <= j < digits.len() implies more[j] == digits[j] by {}
        if '0' <= c <= '9' {
            assert(all_digits(more));
        }
    }
}

/// The words for yes and no.
pub open spec fn truth(value: bool) -> Seq<char> {
    if value {
        "true"@
    } else {
        "false"@
    }
}

fn push_truth(text: &mut String, value: bool)
    ensures
        final(text)@ == old(text)@ + truth(value),
{
    if value {
        text.append("true");
    } else {
        text.append("false");
    }
}

impl MessageView {
    /// The message in short.
    pub open spec fn words(self) -> Seq<char> {
        match self {
            MessageView::RequestVote(req) => "RequestVote(candidate="@ + decimal(
                req.candidate_id as nat,
            ) + ", term="@ + decimal(req.term as nat) + ")"@,
            MessageView::RequestVoteResponse(resp) => "RequestVoteResponse(id="@ + decimal(
                resp.id as nat,
            ) + ",term="@ + decimal(resp.term as nat) + ",vote="@ + truth(resp.vote_granted)
                + ")"@,
            MessageView::AppendEntries(req) => "AppendEntries(leader="@ + decimal(
                req.leader_id as nat,
            ) + ",term="@ + decimal(req.term as nat) + ",num_entries="@ + decimal(
                req.entries.len(),
            ) + ")"@,
            MessageView::AppendEntriesResponse(resp) => "AppendEntriesResponse(id="@ + decimal(
                resp.id as nat,
            ) + ",success="@ + truth(resp.success) + ")"@,
            MessageView::InstallSnapshot(req) => "InstallSnapshot(leader_id="@ + decimal(
                req.leader_id as nat,
            ) + ")"@,
            MessageView::InstallSnapshotResponse(resp) => "InstallSnapshotResponse(id="@ + decimal(
                resp.id as nat,
            ) + ")"@,
        }
    }
}

/// The text of a message names its kind and whom it is from, and the term of all that elections and
/// entries are about.
pub proof fn law_messages_name_their_sender(message: MessageView)
    ensures
        ({
            let text = message.words();
            match message {
                MessageView::RequestVote(req) => text == "RequestVote(candidate="@ + decimal(
                    req.candidate_id as nat,
                ) + ", term="@ + decimal(req.term as nat) + ")"@,
                MessageView::RequestVoteResponse(resp) => exists|rest: Seq<char>|
                    text == #[trigger] ("RequestVoteResponse(id="@ + decimal(resp.id as nat)
                        + ",term="@ + decimal(resp.term as nat) + ",vote="@ + rest) && (
                    resp.vote_granted ==> rest == "true"@ + ")"@) && (!resp.vote_granted ==> rest
                        == "false"@ + ")"@),
                MessageView::AppendEntries(req) => text == "AppendEntries(leader="@ + decimal(
                    req.leader_id as nat,
                ) + ",term="@ + decimal(req.term as nat) + ",num_entries="@ + decimal(
                    req.entries.len(),
                ) + ")"@,
                MessageView::AppendEntriesResponse(resp) => exists|rest: Seq<char>|
                    text == #[trigger] ("AppendEntriesResponse(id="@ + decimal(resp.id as nat)
                        + ",success="@ + rest) && (resp.success ==> rest == "true"@ + ")"@) && (
                    !resp.success ==> rest == "false"@ + ")"@),
                MessageView::InstallSnapshot(req) => text == "InstallSnapshot(leader_id="@
                    + decimal(req.leader_id as nat) + ")"@,
                MessageView::InstallSnapshotResponse(resp) => text
                    == "InstallSnapshotResponse(id="@ + decimal(resp.id as nat) + ")"@,
            }
        }),
{
    let text = message.words();
    match message {
        MessageView::RequestVoteResponse(resp) => {
            let rest = truth(resp.vote_granted) + ")"@;
            assert(text =~= "RequestVoteResponse(id="@ + decimal(resp.id as nat) + ",term="@
                + decimal(resp.term as nat) + ",vote="@ + rest);
        },
        MessageView::AppendEntriesResponse(resp) => {
            let rest = truth(resp.success) + ")"@;
            assert(text =~= "AppendEntriesResponse(id="@ + decimal(resp.id as nat) + ",success="@
                + rest);
        },
        _ => {},
    }
}

impl Message {
    /// The message in short.
    pub fn text(&self) -> (text: String)
        ensures
            text@ == self@.words(),
    {
        let mut text = String::new();
        match self {
            Message::RequestVote(req) => {
                text.append("RequestVote(candidate=");
                push_decimal(&mut text, req.candidate_id);
                text.append(", term=");
                push_decimal(&mut text, req.term);
            },
            Message::RequestVoteResponse(resp) => {
                text.append("RequestVoteResponse(id=");
                push_decimal(&mut text, resp.id);
                text.append(",term=");
                push_decimal(&mut text, resp.term);
                text.append(",vote=");
                push_truth(&mut text, resp.vote_granted);
            },
            Message::AppendEntries(req) => {
                text.append("AppendEntries(leader=");
                push_decimal(&mut text, req.leader_id);
                text.append(",term=");
                push_decimal(&mut text, req.term);
                text.append(",num_entries=");
                push_decimal(&mut text, req.entries.len() as u64);
            },
            Message::AppendEntriesResponse(resp) => {
                text.append("AppendEntriesResponse(id=");
                push_decimal(&mut text, resp.id);
                text.append(",success=");
                push_truth(&mut text, resp.success);
            },
            Message::InstallSnapshot(req) => {
                text.append("InstallSnapshot(leader_id=");
                push_decimal(&mut text, req.leader_id);
            },
            Message::InstallSnapshotResponse(resp) => {
                text.append("InstallSnapshotResponse(id=");
                push_decimal(&mut text, resp.id);
            },
        }
        text.append(")");
        assert(text@ =~= self@.words());
        text
    }
}

} // verus!
