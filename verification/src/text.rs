//! Text: numbers in decimal, and the order of strings.

use vstd::prelude::*;

verus! {

/// The character of a decimal digit.
pub open spec fn digit(d: nat) -> char {
    (48 + d) as char
}

/// `n` in decimal, without leading zeros.
pub open spec fn decimal(n: nat) -> Seq<char>
    decreases n,
{
    if n < 10 {
        seq![digit(n)]
    } else {
        decimal(n / 10).push(digit(n % 10))
    }
}

/// `n` in decimal, with a minus sign in front where it is negative.
pub open spec fn signed_decimal(n: int) -> Seq<char> {
    if n < 0 {
        seq!['-'] + decimal((-n) as nat)
    } else {
        decimal(n as nat)
    }
}

fn push_digit(text: &mut String, d: u64)
    requires
        d < 10,
    ensures
        final(text)@ == old(text)@.push(digit(d as nat)),
{
    proof {
        reveal_strlit("0");
        reveal_strlit("1");
        reveal_strlit("2");
        reveal_strlit("3");
        reveal_strlit("4");
        reveal_strlit("5");
        reveal_strlit("6");
        reveal_strlit("7");
        reveal_strlit("8");
        reveal_strlit("9");
    }
    let glyph: &str = if d == 0 {
        "0"
    } else if d == 1 {
        "1"
    } else if d == 2 {
        "2"
    } else if d == 3 {
        "3"
    } else if d == 4 {
        "4"
    } else if d == 5 {
        "5"
    } else if d == 6 {
        "6"
    } else if d == 7 {
        "7"
    } else if d == 8 {
        "8"
    } else {
        "9"
    };
    text.append(glyph);
    assert(text@ == old(text)@.push(digit(d as nat)));
}

/// Appends `n` in decimal.
pub fn push_decimal(text: &mut String, n: u64)
    ensures
        final(text)@ == old(text)@ + decimal(n as nat),
    decreases n,
{
    if n >= 10 {
        push_decimal(text, n / 10);
    }
    push_digit(text, n % 10);
    assert(text@ == old(text)@ + decimal(n as nat));
}

/// Appends `n` in decimal, with its sign where it is negative.
pub fn push_signed(text: &mut String, n: i64)
    ensures
        final(text)@ == old(text)@ + signed_decimal(n as int),
{
    if n < 0 {
        proof {
            reveal_strlit("-");
        }
        text.append("-");
        let size: u64 = (-(n + 1)) as u64 + 1;
        push_decimal(text, size);
        assert(text@ == old(text)@ + signed_decimal(n as int));
    } else {
        push_decimal(text, n as u64);
    }
}

/// Whether `left` comes before `right`, character by character.
pub open spec fn before(left: Seq<char>, right: Seq<char>) -> bool
    decreases left.len(),
{
    if right.len() == 0 {
        false
    } else if left.len() == 0 {
        true
    } else if left[0] != right[0] {
        (left[0] as int) < (right[0] as int)
    } else {
        before(left.drop_first(), right.drop_first())
    }
}

/// Of two different strings one comes before the other, and only one.
pub proof fn lemma_before_total(left: Seq<char>, right: Seq<char>)
    ensures
        left == right <==> !before(left, right) && !before(right, left),
        !(before(left, right) && before(right, left)),
    decreases left.len(),
{
    if left.len() > 0 && right.len() > 0 && left[0] == right[0] {
        lemma_before_total(left.drop_first(), right.drop_first());
        if left.drop_first() == right.drop_first() {
            assert(left =~= seq![left[0]] + left.drop_first());
            assert(right =~= seq![right[0]] + right.drop_first());
        }
    } else if left.len() == 0 && right.len() == 0 {
        assert(left =~= right);
    }
}

/// One string comes before another if it is the start of it, or if it has the lesser
/// character where the two first differ.
pub proof fn lemma_before_is_alphabetical(left: Seq<char>, right: Seq<char>, at: int)
    requires
        0 <= at <= left.len(),
        at <= right.len(),
        forall|i: int| 0 <= i < at ==> #[trigger] left[i] == right[i],
    ensures
        at == left.len() && at < right.len() ==> before(left, right),
        at < left.len() && at < right.len() && (left[at] as int) < (right[at] as int) ==> before(
            left,
            right,
        ),
        at == right.len() ==> !before(left, right),
    decreases at,
{
    if at > 0 {
        assert(left[0] == right[0]);
        assert forall|i: int| 0 <= i < at - 1 implies #[trigger] left.drop_first()[i]
            == right.drop_first()[i] by {
            assert(left[i + 1] == right[i + 1]);
        }
        lemma_before_is_alphabetical(left.drop_first(), right.drop_first(), at - 1);
    }
}

/// The order of strings is transitive.
pub proof fn lemma_before_transitive(one: Seq<char>, two: Seq<char>, three: Seq<char>)
    requires
        before(one, two),
        before(two, three),
    ensures
        before(one, three),
    decreases one.len(),
{
    if one.len() > 0 && one[0] == two[0] && two[0] == three[0] {
        lemma_before_transitive(one.drop_first(), two.drop_first(), three.drop_first());
    }
}

/// Strings with a common start are ordered by what follows it.
proof fn lemma_before_from(left: Seq<char>, right: Seq<char>, at: int)
    requires
        0 <= at <= left.len(),
        at <= right.len(),
        left.take(at) == right.take(at),
    ensures
        before(left, right) == before(left.skip(at), right.skip(at)),
    decreases at,
{
    if at > 0 {
        assert(left[0] == left.take(at)[0]);
        assert(right[0] == right.take(at)[0]);
        assert(left.drop_first().take(at - 1) =~= left.take(at).drop_first());
        assert(right.drop_first().take(at - 1) =~= right.take(at).drop_first());
        lemma_before_from(left.drop_first(), right.drop_first(), at - 1);
        assert(left.drop_first().skip(at - 1) =~= left.skip(at));
        assert(right.drop_first().skip(at - 1) =~= right.skip(at));
    } else {
        assert(left.skip(0) =~= left);
        assert(right.skip(0) =~= right);
    }
}

/// Whether `left` comes before `right`, character by character.
pub fn is_before(left: &str, right: &str) -> (earlier: bool)
    ensures
        earlier == before(left@, right@),
{
    let left_len: usize = left.unicode_len();
    let right_len: usize = right.unicode_len();
    let mut at: usize = 0;
    assert(left@.take(0) =~= right@.take(0));
    while at < left_len && at < right_len
        invariant
            left_len == left@.len(),
            right_len == right@.len(),
            at <= left_len,
            at <= right_len,
            left@.take(at as int) == right@.take(at as int),
        decreases left_len - at,
    {
        let here: char = left.get_char(at);
        let there: char = right.get_char(at);
        if here != there {
            proof {
                lemma_before_from(left@, right@, at as int);
            }
            return here < there;
        }
        proof {
            assert(left@.take(at + 1) =~= left@.take(at as int).push(here));
            assert(right@.take(at + 1) =~= right@.take(at as int).push(there));
        }
        at = at + 1;
    }
    proof {
        lemma_before_from(left@, right@, at as int);
    }
    at < right_len
}

/// Whether two strings are the same.
pub fn same_text(left: &str, right: &str) -> (same: bool)
    ensures
        same == (left@ == right@),
{
    proof {
        lemma_before_total(left@, right@);
    }
    !is_before(left, right) && !is_before(right, left)
}

pub open spec fn is_digit(c: char) -> bool {
    '0' <= c && c <= '9'
}

pub open spec fn all_digits(written: Seq<char>) -> bool {
    forall|i: int| 0 <= i < written.len() ==> is_digit(#[trigger] written[i])
}

/// The number that a row of digits states.
pub open spec fn digits_value(written: Seq<char>) -> nat
    decreases written.len(),
{
    if written.len() == 0 {
        0
    } else {
        (digits_value(written.drop_last()) * 10 + (written.last() as int - 48)) as nat
    }
}

/// More digits never make a smaller number.
pub proof fn lemma_value_grows(written: Seq<char>, upto: int)
    requires
        0 <= upto <= written.len(),
        all_digits(written.take(upto)),
    ensures
        all_digits(written) ==> digits_value(written.take(upto)) <= digits_value(written),
    decreases written.len(),
{
    if all_digits(written) {
        if upto < written.len() {
            let shorter = written.drop_last();
            assert(shorter.take(upto) =~= written.take(upto));
            assert(all_digits(shorter)) by {
                assert forall|i: int| 0 <= i < shorter.len() implies is_digit(
                    #[trigger] shorter[i],
                ) by {
                    assert(is_digit(written[i]));
                }
            }
            lemma_value_grows(shorter, upto);
            assert(is_digit(written[written.len() - 1]));
        } else {
            assert(written.take(upto) =~= written);
        }
    }
}

/// A number in decimal is made of digits that state it.
pub proof fn lemma_decimal_value(n: nat)
    ensures
        decimal(n).len() > 0,
        all_digits(decimal(n)),
        digits_value(decimal(n)) == n,
    decreases n,
{
    let d = (n % 10) as nat;
    assert(digit(d) as int == 48 + d);
    if n < 10 {
        let one = decimal(n);
        assert(one.drop_last() =~= Seq::<char>::empty());
        assert(digits_value(one.drop_last()) == 0);
    } else {
        lemma_decimal_value(n / 10);
        let front = decimal(n / 10);
        let whole = decimal(n);
        assert(whole.drop_last() =~= front);
        assert forall|i: int| 0 <= i < whole.len() implies is_digit(#[trigger] whole[i]) by {
            if i < front.len() {
                assert(is_digit(front[i]));
            }
        }
    }
}

/// A number other than zero does not begin with a zero, and a negative one begins with a
/// minus sign.
pub proof fn lemma_decimal_begins(n: nat)
    ensures
        decimal(n).len() > 0,
        n > 0 ==> decimal(n)[0] != '0',
        n > 0 ==> signed_decimal(-n) == seq!['-'] + decimal(n),
        signed_decimal(n as int) == decimal(n),
    decreases n,
{
    if n >= 10 {
        lemma_decimal_begins(n / 10);
        assert(decimal(n)[0] == decimal(n / 10)[0]);
    } else if n > 0 {
        assert(digit(n) as int == 48 + n);
    }
}

/// Two texts, one after the other.
pub fn glue2(a: &str, b: &str) -> (whole: String)
    ensures
        whole@ == a@ + b@,
{
    let mut whole: String = a.to_owned();
    whole.append(b);
    whole
}

/// Four texts, one after the other.
pub fn glue4(a: &str, b: &str, c: &str, d: &str) -> (whole: String)
    ensures
        whole@ == a@ + b@ + c@ + d@,
{
    let mut whole: String = glue2(a, b);
    whole.append(c);
    whole.append(d);
    whole
}

/// Three texts, one after the other.
pub fn glue3(a: &str, b: &str, c: &str) -> (whole: String)
    ensures
        whole@ == a@ + b@ + c@,
{
    let mut whole: String = a.to_owned();
    whole.append(b);
    whole.append(c);
    whole
}

/// Five texts, one after the other.
pub fn glue5(a: &str, b: &str, c: &str, d: &str, e: &str) -> (whole: String)
    ensures
        whole@ == a@ + b@ + c@ + d@ + e@,
{
    let mut whole: String = glue3(a, b, c);
    whole.append(d);
    whole.append(e);
    whole
}

pub fn decimal_text(n: u64) -> (written: String)
    ensures
        written@ == decimal(n as nat),
{
    let mut written: String = "".to_owned();
    push_decimal(&mut written, n);
    proof {
        reveal_strlit("");
        assert(""@ =~= seq![]);
        assert(written@ =~= decimal(n as nat));
    }
    written
}

pub fn signed_text(n: i64) -> (written: String)
    ensures
        written@ == signed_decimal(n as int),
{
    let mut written: String = "".to_owned();
    push_signed(&mut written, n);
    proof {
        reveal_strlit("");
        assert(""@ =~= seq![]);
        assert(written@ =~= signed_decimal(n as int));
    }
    written
}

/// A text between quotes, as `std::fmt::Debug` writes it.
pub uninterp spec fn debug_text(written: Seq<char>) -> Seq<char>;

/// Calls `std::fmt::Debug` on a text through `format!`. Which characters it
/// escapes, and how, is left unsaid.
#[verifier::external_body]
pub(crate) fn debug_quoted(written: &str) -> (quoted: String)
    ensures
        quoted@ == debug_text(written@),
{
    format!("{:?}", written)
}

/// Quoted texts with commas between them.
pub open spec fn debug_items(list: Seq<Seq<char>>) -> Seq<char>
    decreases list.len(),
{
    if list.len() == 0 {
        seq![]
    } else if list.len() == 1 {
        debug_text(list[0])
    } else {
        debug_items(list.drop_last()) + ", "@ + debug_text(list.last())
    }
}

/// A list of texts, as `std::fmt::Debug` writes it.
pub open spec fn debug_list(list: Seq<Seq<char>>) -> Seq<char> {
    "["@ + debug_items(list) + "]"@
}

pub fn debug_listed(list: &Vec<&str>) -> (written: String)
    ensures
        written@ == debug_list(Seq::new(list@.len(), |i: int| list@[i]@)),
{
    let ghost names = Seq::new(list@.len(), |i: int| list@[i]@);
    let mut items: String = "".to_owned();
    proof {
        reveal_strlit("");
        assert(""@ =~= seq![]);
    }
    let mut at: usize = 0;
    while at < list.len()
        invariant
            at <= list@.len(),
            names == Seq::new(list@.len(), |i: int| list@[i]@),
            items@ == debug_items(names.take(at as int)),
        decreases list@.len() - at,
    {
        proof {
            assert(names.take(at + 1).drop_last() =~= names.take(at as int));
            assert(names.take(at + 1).last() == list@[at as int]@);
        }
        if at > 0 {
            items.append(", ");
        }
        let item: String = debug_quoted(list[at]);
        items.append(item.as_str());
        at = at + 1;
        assert(items@ =~= debug_items(names.take(at as int)));
    }
    assert(names.take(at as int) =~= names);
    glue3("[", items.as_str(), "]")
}

} // verus!
