use vstd::prelude::*;
use vstd::string::StringExecFns;

verus! {

/// The character of a decimal digit.
pub open spec fn digit_char(d: int) -> char {
    if d == 0 {
        '0'
    } else if d == 1 {
        '1'
    } else if d == 2 {
        '2'
    } else if d == 3 {
        '3'
    } else if d == 4 {
        '4'
    } else if d == 5 {
        '5'
    } else if d == 6 {
        '6'
    } else if d == 7 {
        '7'
    } else if d == 8 {
        '8'
    } else {
        '9'
    }
}

/// The decimal digits of `n`, most significant first, without leading zeros.
pub open spec fn decimal(n: nat) -> Seq<char>
    decreases n,
{
    if n < 10 {
        seq![digit_char(n as int)]
    } else {
        decimal(n / 10).push(digit_char((n % 10) as int))
    }
}

/// The decimal digits of `n`, with a zero in front where `n` has one digit.
pub open spec fn padded(n: nat) -> Seq<char> {
    if n < 10 {
        seq!['0', digit_char(n as int)]
    } else {
        decimal(n)
    }
}

/// A number has at least one digit, and at least two once it has reached ten.
pub proof fn lemma_decimal_len(n: nat)
    ensures
        decimal(n).len() >= 1,
        n >= 10 ==> decimal(n).len() >= 2,
        n < 10 ==> decimal(n).len() == 1,
        10 <= n < 100 ==> decimal(n).len() == 2,
    decreases n,
{
    if n >= 10 {
        lemma_decimal_len(n / 10);
    }
}

/// The digit `d` as a text.
fn digit_str(d: usize) -> (s: &'static str)
    requires
        d < 10,
    ensures
        s@ == seq![digit_char(d as int)],
{
    proof {
        reveal_strlit("0");
        reveal_strlit("1");
        reveal_strlit("2");
        reveal_strlit("3");
        reveal_strlit("4");
        reveal_strlit("5");
        reveal_strlit("6");
        reveal_strlit("7");
        reveal_strlit("8");
        reveal_strlit("9");
    }
    let s = if d == 0 {
        "0"
    } else if d == 1 {
        "1"
    } else if d == 2 {
        "2"
    } else if d == 3 {
        "3"
    } else if d == 4 {
        "4"
    } else if d == 5 {
        "5"
    } else if d == 6 {
        "6"
    } else if d == 7 {
        "7"
    } else if d == 8 {
        "8"
    } else {
        "9"
    };
    assert(s@ =~= seq![digit_char(d as int)]);
    s
}

/// Appends the decimal digits of `n` to `text`.
pub fn push_decimal(text: &mut String, n: usize)
    ensures
        final(text)@ == old(text)@ + decimal(n as nat),
    decreases n,
{
    if n >= 10 {
        push_decimal(text, n / 10);
    }
    text.append(digit_str(n % 10));
    proof {
        if n >= 10 {
            assert(text@ =~= old(text)@ + decimal(n as nat));
        } else {
            assert(text@ =~= old(text)@ + decimal(n as nat));
        }
    }
}

/// Appends `n` in decimal, at least two digits wide.
pub fn push_padded(text: &mut String, n: usize)
    ensures
        final(text)@ == old(text)@ + padded(n as nat),
{
    if n < 10 {
        text.append(digit_str(0));
        text.append(digit_str(n));
        assert(text@ =~= old(text)@ + padded(n as nat));
    } else {
        push_decimal(text, n);
    }
}

/// `a` has the smaller code point.
pub open spec fn char_before(a: char, b: char) -> bool {
    (a as int) < (b as int)
}

/// `a` and `b` agree on their first `i` characters, and there `a` ends while
/// `b` goes on, or `a` has the smaller character.
pub open spec fn splits_at(a: Seq<char>, b: Seq<char>, i: int) -> bool {
    &&& 0 <= i <= a.len()
    &&& i <= b.len()
    &&& forall|j: int| 0 <= j < i ==> a[j] == b[j]
    &&& (i == a.len() && i < b.len()) || (i < a.len() && i < b.len() && char_before(a[i], b[i]))
}

/// `a` comes before `b` in lexicographic order: character by character, by
/// code point, a proper prefix before what it is a prefix of.
pub open spec fn text_before(a: Seq<char>, b: Seq<char>) -> bool {
    exists|i: int| splits_at(a, b, i)
}

/// `m` is one of `texts`, and none of them comes before it.
pub open spec fn is_least(texts: Seq<Seq<char>>, m: Seq<char>) -> bool {
    &&& texts.contains(m)
    &&& forall|i: int| 0 <= i < texts.len() ==> !text_before(#[trigger] texts[i], m)
}

/// Two texts that agree on their first `i` characters are equal, or one
/// comes before the other.
proof fn lemma_compare_from(a: Seq<char>, b: Seq<char>, i: int)
    requires
        0 <= i <= a.len(),
        i <= b.len(),
        forall|j: int| 0 <= j < i ==> a[j] == b[j],
    ensures
        a == b || text_before(a, b) || text_before(b, a),
    decreases a.len() - i,
{
    if i == a.len() {
        if i == b.len() {
            assert(a =~= b);
        } else {
            assert(splits_at(a, b, i));
        }
    } else if i == b.len() {
        assert(splits_at(b, a, i));
    } else if a[i] == b[i] {
        lemma_compare_from(a, b, i + 1);
    } else if char_before(a[i], b[i]) {
        assert(splits_at(a, b, i));
    } else {
        assert(a[i] as int != b[i] as int);
        assert(splits_at(b, a, i));
    }
}

/// Of two different texts one comes before the other.
pub proof fn lemma_text_order_total(a: Seq<char>, b: Seq<char>)
    ensures
        a == b || text_before(a, b) || text_before(b, a),
{
    lemma_compare_from(a, b, 0);
}

/// No text comes before itself, and no two come before each other.
pub proof fn lemma_text_order_asymmetric(a: Seq<char>, b: Seq<char>)
    ensures
        !(text_before(a, b) && text_before(b, a)),
{
    if text_before(a, b) && text_before(b, a) {
        let i = choose|i: int| splits_at(a, b, i);
        let j = choose|j: int| splits_at(b, a, j);
        if i < j {
            assert(b[i] == a[i]);
        } else if j < i {
            assert(a[j] == b[j]);
        }
    }
}

/// What comes before a text comes before all that the text comes before.
pub proof fn lemma_text_order_transitive(a: Seq<char>, b: Seq<char>, c: Seq<char>)
    requires
        text_before(a, b),
        text_before(b, c),
    ensures
        text_before(a, c),
{
    let i = choose|i: int| splits_at(a, b, i);
    let j = choose|j: int| splits_at(b, c, j);
    if i <= j {
        assert forall|n: int| 0 <= n < i implies a[n] == c[n] by {
            assert(a[n] == b[n]);
        }
        if i < j && i < b.len() {
            assert(b[i] == c[i]);
        }
        assert(splits_at(a, c, i));
    } else {
        assert forall|n: int| 0 <= n < j implies a[n] == c[n] by {
            assert(a[n] == b[n]);
        }
        assert(a[j] == b[j]);
        assert(splits_at(a, c, j));
    }
}

/// A list of texts has at most one least text.
pub proof fn lemma_least_unique(texts: Seq<Seq<char>>, m: Seq<char>, n: Seq<char>)
    requires
        is_least(texts, m),
        is_least(texts, n),
    ensures
        m == n,
{
    let i = choose|i: int| 0 <= i < texts.len() && texts[i] == m;
    let j = choose|j: int| 0 <= j < texts.len() && texts[j] == n;
    assert(!text_before(texts[i], n));
    assert(!text_before(texts[j], m));
    lemma_text_order_total(m, n);
}

/// Lists that hold the same texts have the same least text.
pub proof fn lemma_least_of_same_texts(
    a: Seq<Seq<char>>,
    b: Seq<Seq<char>>,
    m: Seq<char>,
    n: Seq<char>,
)
    requires
        is_least(a, m),
        is_least(b, n),
        forall|i: int| 0 <= i < a.len() ==> b.contains(#[trigger] a[i]),
        forall|i: int| 0 <= i < b.len() ==> a.contains(#[trigger] b[i]),
    ensures
        m == n,
{
    let i = choose|i: int| 0 <= i < a.len() && a[i] == m;
    assert(b.contains(a[i]));
    let i2 = choose|i2: int| 0 <= i2 < b.len() && b[i2] == m;
    assert(!text_before(b[i2], n));
    let j = choose|j: int| 0 <= j < b.len() && b[j] == n;
    assert(a.contains(b[j]));
    let j2 = choose|j2: int| 0 <= j2 < a.len() && a[j2] == n;
    assert(!text_before(a[j2], m));
    lemma_text_order_total(m, n);
}

/// The `<` of `str`: std orders strings lexicographically by their bytes,
/// which is the order of their code points. The contract claims that the
/// result says whether `a` comes before `b` in that order.
#[verifier::external_body]
fn comes_before(a: &str, b: &str) -> (before: bool)
    ensures
        before == text_before(a@, b@),
{
    a < b
}

/// A copy of the least of `texts`.
pub fn least_text(texts: &Vec<String>) -> (least: String)
    requires
        texts@.len() > 0,
    ensures
        is_least(Seq::new(texts@.len(), |i: int| texts@[i]@), least@),
{
    let ghost views = Seq::new(texts@.len(), |i: int| texts@[i]@);
    let mut best: usize = 0;
    let mut k: usize = 1;
    while k < texts.len()
        invariant
            1 <= k <= texts@.len(),
            best < k,
            views == Seq::new(texts@.len(), |i: int| texts@[i]@),
            forall|i: int| 0 <= i < k ==> !text_before(#[trigger] views[i], views[best as int]),
        decreases texts@.len() - k,
    {
        if comes_before(texts[k].as_str(), texts[best].as_str()) {
            proof {
                let old_best = views[best as int];
                let new_best = views[k as int];
                assert forall|i: int| 0 <= i < k + 1 implies !text_before(
                    #[trigger] views[i],
                    new_best,
                ) by {
                    if text_before(views[i], new_best) {
                        lemma_text_order_transitive(views[i], new_best, old_best);
                    }
                }
            }
            best = k;
        }
        k += 1;
    }
    proof {
        assert(views[best as int] == texts@[best as int]@);
    }
    texts[best].clone()
}

} // verus!
