use vstd::prelude::*;
use vstd::string::StringExecFns;
use vstd::string::StrSliceExecFns;
use crate::lemma_swap_to_multiset;

verus! {

/// The character of the decimal digit `d`.
pub open spec fn digit_char(d: nat) -> char {
    (('0' as int) + d) as char
}

/// The decimal digits of `n`, most significant first, without leading zeros.
pub open spec fn decimal(n: nat) -> Seq<char>
    decreases n,
{
    if n < 10 {
        seq![digit_char(n)]
    } else {
        decimal(n / 10).push(digit_char(n % 10))
    }
}

/// The text a producer sends: `msg from ` followed by its number in decimal.
pub open spec fn message_text(id: nat) -> Seq<char> {
    "msg from "@ + decimal(id)
}

fn digit_str(d: usize) -> (s: &'static str)
    requires
        d < 10,
    ensures
        s@ == seq![digit_char(d as nat)],
{
    proof {
        reveal_strlit("0");
        reveal_strlit("1");
        reveal_strlit("2");
        reveal_strlit("3");
        reveal_strlit("4");
        reveal_strlit("5");
        reveal_strlit("6");
        reveal_strlit("7");
        reveal_strlit("8");
        reveal_strlit("9");
    }
    let s = match d {
        0 => "0",
        1 => "1",
        2 => "2",
        3 => "3",
        4 => "4",
        5 => "5",
        6 => "6",
        7 => "7",
        8 => "8",
        _ => "9",
    };
    assert(s@ =~= seq![digit_char(d as nat)]);
    s
}

fn append_decimal(s: &mut String, n: usize)
    ensures
        final(s)@ == old(s)@ + decimal(n as nat),
    decreases n,
{
    if n >= 10 {
        append_decimal(s, n / 10);
    }
    s.append(digit_str(n % 10));
    assert(s@ =~= old(s)@ + decimal(n as nat));
}

/// The message that producer number `id` sends.
pub fn producer_message(id: usize) -> (msg: String)
    ensures
        msg@ == message_text(id as nat),
        msg@.len() > 9,
        msg@.subrange(0, 9) == "msg from "@,
        is_numeral(msg@.skip(9)),
        numeral_value(msg@.skip(9)) == id,
{
    let mut msg = String::from_str("msg from ");
    append_decimal(&mut msg, id);
    proof {
        law_message_names_producer(id as nat);
    }
    msg
}

/// Every character of `s` is one of `0` to `9`.
pub open spec fn all_digits(s: Seq<char>) -> bool {
    forall|k: int| 0 <= k < s.len() ==> '0' <= #[trigger] s[k] && s[k] <= '9'
}

/// `s` is a decimal numeral as written for a number: at least one digit,
/// and no leading zero unless it is the single digit `0`.
pub open spec fn is_numeral(s: Seq<char>) -> bool {
    &&& s.len() > 0
    &&& all_digits(s)
    &&& (s.len() > 1 ==> s[0] != '0')
}

/// The number a string of decimal digits denotes, most significant first,
/// each character `c` worth `c - '0'`.
pub open spec fn numeral_value(s: Seq<char>) -> int
    decreases s.len(),
{
    if s.len() == 0 {
        0
    } else {
        numeral_value(s.drop_last()) * 10 + ((s.last() as int) - ('0' as int))
    }
}

/// The decimal digits of `n` form a numeral that reads back as `n`.
pub proof fn law_decimal_reads_back(n: nat)
    ensures
        is_numeral(decimal(n)),
        numeral_value(decimal(n)) == n,
    decreases n,
{
    if n >= 10 {
        law_decimal_reads_back(n / 10);
        let d = decimal(n);
        let hi = decimal(n / 10);
        assert(d == hi.push(digit_char(n % 10)));
        assert(d.drop_last() =~= hi);
        assert forall|k: int| 0 <= k < d.len() implies '0' <= #[trigger] d[k] && d[k] <= '9' by {
            if k < hi.len() {
                assert(d[k] == hi[k]);
            }
        }
        assert(d[0] == hi[0]);
        if hi[0] == '0' {
            assert(hi.len() == 1);
            assert(hi.drop_last() =~= Seq::<char>::empty());
            assert(numeral_value(hi.drop_last()) == 0);
            assert(hi.last() == hi[0]);
            assert(false);
        }
        let r = n % 10;
        assert((digit_char(r) as int) == ('0' as int) + r);
        assert('0' <= digit_char(r) && digit_char(r) <= '9');
        assert(d.last() == digit_char(r));
        assert(numeral_value(d) == numeral_value(hi) * 10 + ((d.last() as int) - ('0' as int)));
        assert(n == (n / 10) * 10 + r);
    } else {
        let d = decimal(n);
        assert(d.drop_last() =~= Seq::<char>::empty());
        assert(numeral_value(d.drop_last()) == 0);
        assert((digit_char(n) as int) == ('0' as int) + n);
        assert('0' <= digit_char(n) && digit_char(n) <= '9');
        assert(d.last() == digit_char(n));
        assert(d[0] == digit_char(n));
        assert(d.len() == 1);
        assert(all_digits(d));
    }
}

/// The message of producer `id` is `msg from ` followed by a decimal numeral
/// that reads back as `id`: different producers send different messages,
/// and each message names its sender.
pub proof fn law_message_names_producer(id: nat)
    ensures
        message_text(id).len() > 9,
        message_text(id).subrange(0, 9) == "msg from "@,
        message_text(id).skip(9) == decimal(id),
        is_numeral(message_text(id).skip(9)),
        numeral_value(message_text(id).skip(9)) == id,
{
    reveal_strlit("msg from ");
    law_decimal_reads_back(id);
    let t = message_text(id);
    assert("msg from "@.len() == 9);
    assert(t.subrange(0, 9) =~= "msg from "@);
    assert(t.skip(9) =~= decimal(id));
}

/// A producer's turn at the shared ticket counter: takes the current value as
/// its number and advances the counter.
pub fn take_ticket(counter: &mut usize) -> (id: usize)
    requires
        *old(counter) < usize::MAX,
    ensures
        id == *old(counter),
        *final(counter) == *old(counter) + 1,
{
    let id = *counter;
    *counter = id + 1;
    id
}

/// The receiving side's step: a message is appended to what was collected and
/// receiving goes on; a closed channel (`None`) ends receiving.
pub fn collect_step(collected: &mut Vec<String>, event: Option<String>) -> (keep_receiving: bool)
    ensures
        match event {
            Some(msg) => keep_receiving && final(collected)@ == old(collected)@.push(msg),
            None => !keep_receiving && final(collected)@ == old(collected)@,
        },
{
    match event {
        Some(msg) => {
            collected.push(msg);
            true
        },
        None => false,
    }
}

/// Lexicographic order on texts, character by character; a proper prefix
/// comes first.
pub open spec fn text_less(a: Seq<char>, b: Seq<char>) -> bool
    decreases a.len(),
{
    if a.len() == 0 {
        b.len() > 0
    } else if b.len() == 0 {
        false
    } else if a[0] != b[0] {
        (a[0] as int) < (b[0] as int)
    } else {
        text_less(a.drop_first(), b.drop_first())
    }
}

/// Lexicographic order is decided by character code at the first
/// difference: after any common prefix `p`, a text continuing with `c` comes
/// before one continuing with `d` exactly when `c`'s code is smaller.
pub proof fn law_text_order_first_difference(
    p: Seq<char>,
    c: char,
    d: char,
    x: Seq<char>,
    y: Seq<char>,
)
    requires
        c != d,
    ensures
        text_less(p + seq![c] + x, p + seq![d] + y) <==> (c as int) < (d as int),
    decreases p.len(),
{
    let a = p + seq![c] + x;
    let b = p + seq![d] + y;
    if p.len() == 0 {
        assert(a[0] == c);
        assert(b[0] == d);
    } else {
        law_text_order_first_difference(p.drop_first(), c, d, x, y);
        assert(a[0] == p[0]);
        assert(b[0] == p[0]);
        assert(a.drop_first() =~= p.drop_first() + seq![c] + x);
        assert(b.drop_first() =~= p.drop_first() + seq![d] + y);
    }
}

/// A proper prefix comes before every longer text that starts with it, and
/// never after it.
pub proof fn law_text_order_prefix_first(p: Seq<char>, rest: Seq<char>)
    requires
        rest.len() > 0,
    ensures
        text_less(p, p + rest),
        !text_less(p + rest, p),
    decreases p.len(),
{
    let b = p + rest;
    if p.len() > 0 {
        law_text_order_prefix_first(p.drop_first(), rest);
        assert(b[0] == p[0]);
        assert(b.drop_first() =~= p.drop_first() + rest);
    }
}

/// `a` comes no later than `b` in lexicographic order.
pub open spec fn text_le(a: Seq<char>, b: Seq<char>) -> bool {
    !text_less(b, a)
}

/// Texts in lexicographic order.
pub open spec fn texts_sorted(s: Seq<String>) -> bool {
    forall|i: int, j: int| 0 <= i <= j < s.len() ==> text_le(#[trigger] s[i]@, #[trigger] s[j]@)
}

/// No text comes before itself.
pub proof fn lemma_text_less_irreflexive(a: Seq<char>)
    ensures
        !text_less(a, a),
    decreases a.len(),
{
    if a.len() > 0 {
        lemma_text_less_irreflexive(a.drop_first());
    }
}

/// Lexicographic order is transitive.
pub proof fn lemma_text_less_transitive(a: Seq<char>, b: Seq<char>, c: Seq<char>)
    requires
        text_less(a, b),
        text_less(b, c),
    ensures
        text_less(a, c),
    decreases a.len(),
{
    if a.len() > 0 && a[0] == b[0] && b[0] == c[0] {
        lemma_text_less_transitive(a.drop_first(), b.drop_first(), c.drop_first());
    }
}

/// Of two different texts, one comes before the other.
pub proof fn lemma_text_less_total(a: Seq<char>, b: Seq<char>)
    requires
        !text_less(a, b),
        !text_less(b, a),
    ensures
        a == b,
    decreases a.len(),
{
    if a.len() > 0 && b.len() > 0 {
        lemma_text_less_total(a.drop_first(), b.drop_first());
        assert(a =~= seq![a[0]] + a.drop_first());
        assert(b =~= seq![b[0]] + b.drop_first());
    } else {
        assert(a =~= b);
    }
}

/// "Comes no later than" is transitive.
pub proof fn lemma_text_le_transitive(a: Seq<char>, b: Seq<char>, c: Seq<char>)
    requires
        text_le(a, b),
        text_le(b, c),
    ensures
        text_le(a, c),
{
    if text_less(c, a) {
        if text_less(b, c) {
            lemma_text_less_transitive(b, c, a);
        } else if !text_less(c, b) {
            lemma_text_less_total(b, c);
        }
    }
}

/// Whether `a` comes strictly before `b` in lexicographic order.
pub fn text_before(a: &str, b: &str) -> (r: bool)
    ensures
        r == text_less(a@, b@),
{
    let la = a.unicode_len();
    let lb = b.unicode_len();
    let mut i: usize = 0;
    assert(a@.skip(0) =~= a@);
    assert(b@.skip(0) =~= b@);
    while i < la && i < lb
        invariant
            la == a@.len(),
            lb == b@.len(),
            i <= la,
            i <= lb,
            text_less(a@, b@) == text_less(a@.skip(i as int), b@.skip(i as int)),
        decreases la - i,
    {
        let ca = a.get_char(i);
        let cb = b.get_char(i);
        if ca != cb {
            return (ca as u32) < (cb as u32);
        }
        assert(a@.skip(i as int).drop_first() =~= a@.skip(i + 1));
        assert(b@.skip(i as int).drop_first() =~= b@.skip(i + 1));
        i = i + 1;
    }
    la < lb
}

/// Sorts `msgs` lexicographically (insertion sort).
pub fn sort_messages(msgs: &mut Vec<String>)
    ensures
        texts_sorted(final(msgs)@),
        final(msgs)@.to_multiset() == old(msgs)@.to_multiset(),
{
    let n = msgs.len();
    if n == 0 {
        return;
    }
    let ghost orig = msgs@;
    proof {
        lemma_text_less_irreflexive(msgs@[0]@);
    }
    let mut i: usize = 1;
    while i < n
        invariant
            1 <= i <= n,
            msgs@.len() == n,
            msgs@.to_multiset() == orig.to_multiset(),
            forall|a: int, b: int|
                0 <= a <= b < i ==> text_le(#[trigger] msgs@[a]@, #[trigger] msgs@[b]@),
        decreases n - i,
    {
        let mut j: usize = i;
        while j > 0 && text_before(msgs[j].as_str(), msgs[j - 1].as_str())
            invariant
                1 <= i < n,
                j <= i,
                msgs@.len() == n,
                msgs@.to_multiset() == orig.to_multiset(),
                forall|a: int, b: int|
                    0 <= a <= b <= i && a != j && b != j ==> text_le(
                        #[trigger] msgs@[a]@,
                        #[trigger] msgs@[b]@,
                    ),
                forall|b: int| j < b <= i ==> text_le(msgs@[j as int]@, #[trigger] msgs@[b]@),
            decreases j,
        {
            let ghost s = msgs@;
            proof {
                lemma_text_less_irreflexive(s[j as int]@);
                if text_less(s[j - 1]@, s[j as int]@) {
                    lemma_text_less_transitive(s[j as int]@, s[j - 1]@, s[j as int]@);
                }
            }
            let x = msgs.remove(j);
            msgs.insert(j - 1, x);
            proof {
                assert(msgs@ =~= s.update(j as int, s[j - 1]).update(j - 1, s[j as int]));
                lemma_swap_to_multiset(s, j as int, j - 1);
            }
            j = j - 1;
        }
        proof {
            assert forall|a: int, b: int| 0 <= a <= b < i + 1 implies text_le(
                #[trigger] msgs@[a]@,
                #[trigger] msgs@[b]@,
            ) by {
                if b == j && a < j {
                    lemma_text_le_transitive(msgs@[a]@, msgs@[j - 1]@, msgs@[b]@);
                } else if a == b {
                    lemma_text_less_irreflexive(msgs@[a]@);
                }
            }
        }
        i = i + 1;
    }
}

} // verus!
