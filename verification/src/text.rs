//! Text: decimal numerals, lists, case folding and the nearest known word.
use vstd::prelude::*;

verus! {

/// The decimal digit of a number below ten.
pub open spec fn digit_char(n: nat) -> char {
    if n == 0 {
        '0'
    } else if n == 1 {
        '1'
    } else if n == 2 {
        '2'
    } else if n == 3 {
        '3'
    } else if n == 4 {
        '4'
    } else if n == 5 {
        '5'
    } else if n == 6 {
        '6'
    } else if n == 7 {
        '7'
    } else if n == 8 {
        '8'
    } else {
        '9'
    }
}

/// The decimal numeral of a number, without leading zeros.
pub open spec fn numeral(n: nat) -> Seq<char>
    decreases n,
{
    if n < 10 {
        seq![digit_char(n)]
    } else {
        numeral(n / 10).push(digit_char(n % 10))
    }
}

/// The texts that a sequence of strings holds.
pub open spec fn texts(s: Seq<String>) -> Seq<Seq<char>> {
    Seq::new(s.len(), |i: int| s[i]@)
}

/// The texts that a sequence of string slices holds.
pub open spec fn words(s: Seq<&str>) -> Seq<Seq<char>> {
    Seq::new(s.len(), |i: int| s[i]@)
}

/// The parts one after another, with a separator between neighbours.
pub open spec fn joined(parts: Seq<Seq<char>>, separator: Seq<char>) -> Seq<char>
    decreases parts.len(),
{
    if parts.len() == 0 {
        Seq::empty()
    } else if parts.len() == 1 {
        parts[0]
    } else {
        joined(parts.drop_last(), separator) + separator + parts.last()
    }
}

/// A character with an ASCII capital letter made small.
pub open spec fn small_char(c: char) -> char {
    if 65 <= c as u32 <= 90 {
        ((c as u32) + 32) as char
    } else {
        c
    }
}

/// A text with its ASCII capital letters made small.
pub open spec fn small(s: Seq<char>) -> Seq<char> {
    Seq::new(s.len(), |i: int| small_char(s[i]))
}

/// How many single-character insertions, removals and replacements turn the first `i`
/// characters of `a` into the first `j` characters of `b`.
pub open spec fn edits(a: Seq<char>, i: nat, b: Seq<char>, j: nat) -> nat
    decreases i + j,
{
    if i == 0 {
        j
    } else if j == 0 {
        i
    } else {
        let kept = edits(a, (i - 1) as nat, b, (j - 1) as nat) + if a[i - 1] == b[j - 1] {
            0nat
        } else {
            1nat
        };
        let removed = edits(a, (i - 1) as nat, b, j) + 1;
        let inserted = edits(a, i, b, (j - 1) as nat) + 1;
        least(kept, least(removed, inserted))
    }
}

pub open spec fn least(a: nat, b: nat) -> nat {
    if a <= b {
        a
    } else {
        b
    }
}

/// The edit distance of two texts.
pub open spec fn distance(a: Seq<char>, b: Seq<char>) -> nat {
    edits(a, a.len(), b, b.len())
}

/// The first of the first `n` words that no other of them is nearer than.
pub open spec fn nearest_among(word: Seq<char>, known: Seq<Seq<char>>, n: nat) -> int
    decreases n,
{
    if n <= 1 {
        0
    } else {
        let before = nearest_among(word, known, (n - 1) as nat);
        if distance(word, known[n - 1]) < distance(word, known[before]) {
            n - 1
        } else {
            before
        }
    }
}

/// The known word that a misspelling is taken for: the nearest one, the first of
/// several, where it is at most two edits away.
pub open spec fn suggestion(word: Seq<char>, known: Seq<Seq<char>>) -> Option<Seq<char>> {
    let best = known[nearest_among(word, known, known.len())];
    if known.len() > 0 && distance(word, best) <= 2 {
        Some(best)
    } else {
        None
    }
}

proof fn lemma_nearest(word: Seq<char>, known: Seq<Seq<char>>, n: nat)
    requires
        0 < n <= known.len(),
    ensures
        0 <= nearest_among(word, known, n) < n,
        forall|j: int|
            0 <= j < n ==> distance(word, known[nearest_among(word, known, n)]) <= distance(
                word,
                #[trigger] known[j],
            ),
    decreases n,
{
    if n > 1 {
        lemma_nearest(word, known, (n - 1) as nat);
    }
}

/// A suggestion is one of the known words and no known word is nearer to what was
/// written; none is made exactly when every known word is three edits away or more.
pub proof fn suggestion_is_the_nearest_known_word(word: Seq<char>, known: Seq<Seq<char>>)
    ensures
        match suggestion(word, known) {
            Some(best) => known.contains(best) && distance(word, best) <= 2 && forall|j: int|
                0 <= j < known.len() ==> distance(word, best) <= distance(
                    word,
                    #[trigger] known[j],
                ),
            None => forall|j: int| 0 <= j < known.len() ==> distance(word, #[trigger] known[j]) > 2,
        },
{
    if known.len() > 0 {
        lemma_nearest(word, known, known.len());
    }
}

proof fn lemma_edits_bound(a: Seq<char>, i: nat, b: Seq<char>, j: nat)
    ensures
        edits(a, i, b, j) <= i + j,
    decreases i + j,
{
    if i > 0 && j > 0 {
        lemma_edits_bound(a, (i - 1) as nat, b, (j - 1) as nat);
        lemma_edits_bound(a, (i - 1) as nat, b, j);
        lemma_edits_bound(a, i, b, (j - 1) as nat);
    }
}

/// The number that a text of decimal digits stands for.
pub open spec fn number_read(s: Seq<char>) -> nat
    decreases s.len(),
{
    if s.len() == 0 {
        0
    } else {
        10 * number_read(s.drop_last()) + (s.last() as nat - '0' as nat) as nat
    }
}

/// A numeral is made of decimal digits, does not begin with a zero but for zero itself, and
/// reads back as the number that it was made of.
pub proof fn a_numeral_reads_back(n: nat)
    ensures
        number_read(numeral(n)) == n,
        numeral(n).len() > 0,
        forall|i: int| 0 <= i < numeral(n).len() ==> '0' <= (#[trigger] numeral(n)[i]) <= '9',
        n > 0 ==> numeral(n)[0] != '0',
    decreases n,
{
    if n < 10 {
        assert(numeral(n).drop_last() =~= Seq::<char>::empty());
        assert(number_read(Seq::<char>::empty()) == 0);
    } else {
        a_numeral_reads_back(n / 10);
        assert(numeral(n).drop_last() =~= numeral(n / 10));
        assert forall|i: int| 0 <= i < numeral(n).len() implies '0' <= (
        #[trigger] numeral(n)[i]) <= '9' by {
            if i < numeral(n / 10).len() {
                assert(numeral(n)[i] == numeral(n / 10)[i]);
            }
        }
    }
}

proof fn lemma_small_char(c: char)
    ensures
        c < 'A' || 'Z' < c ==> small_char(c) == c,
{
}

/// A text in small letters differs from the text in its capital letters alone, each of which
/// stands for the small letter thirty-two places on; what is small stays as it is.
pub proof fn small_letters_stay_as_they_are(s: Seq<char>, i: int)
    requires
        0 <= i < s.len(),
    ensures
        small(s).len() == s.len(),
        'A' <= s[i] <= 'Z' ==> 'a' <= small(s)[i] <= 'z' && small(s)[i] as int == s[i] as int + 32,
        s[i] < 'A' || 'Z' < s[i] ==> small(s)[i] == s[i],
        small(small(s)) == small(s),
{
    assert forall|j: int| 0 <= j < s.len() implies small_char(small_char(#[trigger] s[j]))
        == small_char(s[j]) by {}
    assert(small(small(s)) =~= small(s));
    lemma_small_char(s[i]);
}

/// Parts put together in two goes are put together as in one, with the separator between; a
/// part alone is itself, and no part is nothing.
pub proof fn parts_are_joined_in_order(
    a: Seq<Seq<char>>,
    b: Seq<Seq<char>>,
    part: Seq<char>,
    separator: Seq<char>,
)
    ensures
        joined(Seq::empty(), separator) == Seq::<char>::empty(),
        joined(seq![part], separator) == part,
        a.len() > 0 && b.len() > 0 ==> joined(a + b, separator) == joined(a, separator)
            + separator + joined(b, separator),
    decreases b.len(),
{
    if a.len() > 0 && b.len() > 0 {
        let all = a + b;
        assert(all.drop_last() =~= a + b.drop_last());
        assert(all.last() == b.last());
        if b.len() == 1 {
            assert(a + b.drop_last() =~= a);
        } else {
            parts_are_joined_in_order(a, b.drop_last(), part, separator);
            assert(joined(all, separator) =~= joined(a, separator) + separator + joined(
                b,
                separator,
            ));
        }
    }
}

/// One character more or less changes the number of edits by one at most.
proof fn lemma_edits_step(a: Seq<char>, i: nat, b: Seq<char>, j: nat)
    ensures
        j > 0 ==> edits(a, i, b, j) <= edits(a, i, b, (j - 1) as nat) + 1 && edits(
            a,
            i,
            b,
            (j - 1) as nat,
        ) <= edits(a, i, b, j) + 1,
        i > 0 ==> edits(a, i, b, j) <= edits(a, (i - 1) as nat, b, j) + 1 && edits(
            a,
            (i - 1) as nat,
            b,
            j,
        ) <= edits(a, i, b, j) + 1,
    decreases i + j,
{
    if i > 0 && j > 0 {
        lemma_edits_step(a, (i - 1) as nat, b, j);
        lemma_edits_step(a, i, b, (j - 1) as nat);
        lemma_edits_step(a, (i - 1) as nat, b, (j - 1) as nat);
    }
}

proof fn lemma_edits_symmetric(a: Seq<char>, i: nat, b: Seq<char>, j: nat)
    ensures
        edits(a, i, b, j) == edits(b, j, a, i),
    decreases i + j,
{
    if i > 0 && j > 0 {
        lemma_edits_symmetric(a, (i - 1) as nat, b, j);
        lemma_edits_symmetric(a, i, b, (j - 1) as nat);
        lemma_edits_symmetric(a, (i - 1) as nat, b, (j - 1) as nat);
    }
}

proof fn lemma_edits_of_prefixes(
    a: Seq<char>,
    x: Seq<char>,
    i: nat,
    b: Seq<char>,
    y: Seq<char>,
    j: nat,
)
    requires
        i <= a.len(),
        i <= x.len(),
        j <= b.len(),
        j <= y.len(),
        a.take(i as int) == x.take(i as int),
        b.take(j as int) == y.take(j as int),
    ensures
        edits(a, i, b, j) == edits(x, i, y, j),
    decreases i + j,
{
    if i > 0 && j > 0 {
        let p = (i - 1) as nat;
        let q = (j - 1) as nat;
        assert(a[i - 1] == a.take(i as int)[i - 1] && x[i - 1] == x.take(i as int)[i - 1]);
        assert(b[j - 1] == b.take(j as int)[j - 1] && y[j - 1] == y.take(j as int)[j - 1]);
        assert(a.take(p as int) =~= a.take(i as int).take(p as int));
        assert(x.take(p as int) =~= x.take(i as int).take(p as int));
        assert(b.take(q as int) =~= b.take(j as int).take(q as int));
        assert(y.take(q as int) =~= y.take(j as int).take(q as int));
        lemma_edits_of_prefixes(a, x, p, b, y, q);
        lemma_edits_of_prefixes(a, x, p, b, y, j);
        lemma_edits_of_prefixes(a, x, i, b, y, q);
    }
}

proof fn lemma_edits_of_itself(a: Seq<char>, i: nat)
    ensures
        edits(a, i, a, i) == 0,
    decreases i,
{
    if i > 0 {
        lemma_edits_of_itself(a, (i - 1) as nat);
    }
}

/// The distance of two texts counts edits: none from a text to itself and some to any other,
/// as many back as there; one for a character put behind, one for another character in its
/// place, and none more for the same character behind both.
pub proof fn a_distance_counts_edits(a: Seq<char>, b: Seq<char>, c: char, d: char)
    ensures
        distance(a, a) == 0,
        distance(a, b) == 0 ==> a == b,
        distance(a, b) == distance(b, a),
        distance(a.push(c), a) == 1,
        c != d ==> distance(a.push(c), a.push(d)) == 1,
        distance(a.push(c), b.push(c)) == distance(a, b),
        distance(a.push(c), b) <= distance(a, b) + 1,
        distance(a, b) <= distance(a.push(c), b) + 1,
{
    let ac = a.push(c);
    let bc = b.push(c);
    let ad = a.push(d);
    let n = a.len();
    let m = b.len();
    lemma_edits_of_itself(a, n);
    lemma_edits_symmetric(a, n, b, m);
    lemma_edits_zero(a, b);
    assert(ac.take(n as int) =~= a.take(n as int));
    assert(ad.take(n as int) =~= a.take(n as int));
    assert(bc.take(m as int) =~= b.take(m as int));
    lemma_edits_of_prefixes(ac, a, n, a, a, n);
    lemma_edits_of_prefixes(ac, a, n, b, b, m);
    lemma_edits_of_prefixes(ac, a, n, bc, b, m);
    lemma_edits_of_prefixes(ac, a, n, ad, a, n);
    lemma_edits_step(ac, n + 1, a, n);
    lemma_edits_step(ac, n + 1, b, m);
    lemma_edits_step(ac, n, bc, m + 1);
    lemma_edits_step(ac, n + 1, bc, m);
    lemma_edits_step(ac, n + 1, bc, m + 1);
    lemma_edits_zero(ac, a);
    lemma_edits_zero(ac, ad);
    if c != d {
        assert(ac[n as int] == c && ad[n as int] == d);
        lemma_edits_step(ac, n, ad, n + 1);
        lemma_edits_step(ac, n + 1, ad, n);
    }
}

proof fn lemma_edits_zero(a: Seq<char>, b: Seq<char>)
    ensures
        distance(a, b) == 0 ==> a == b,
{
    if distance(a, b) == 0 {
        lemma_no_edits(a, a.len(), b, b.len());
        assert(a.take(a.len() as int) =~= a);
        assert(b.take(b.len() as int) =~= b);
    }
}

proof fn lemma_no_edits(a: Seq<char>, i: nat, b: Seq<char>, j: nat)
    requires
        i <= a.len(),
        j <= b.len(),
        edits(a, i, b, j) == 0,
    ensures
        i == j,
        a.take(i as int) == b.take(j as int),
    decreases i + j,
{
    if i > 0 && j > 0 {
        let p = (i - 1) as nat;
        let q = (j - 1) as nat;
        lemma_no_edits(a, p, b, q);
        assert(a.take(i as int) =~= a.take(p as int).push(a[p as int]));
        assert(b.take(j as int) =~= b.take(q as int).push(b[q as int]));
    } else {
        assert(a.take(i as int) =~= b.take(j as int));
    }
}

/// Of several known words that are equally near, the first is suggested.
pub proof fn the_first_of_the_nearest_words_is_suggested(word: Seq<char>, known: Seq<Seq<char>>)
    ensures
        suggestion(word, known) matches Some(best) ==> exists|k: int|
            0 <= k < known.len() && #[trigger] known[k] == best && forall|j: int|
                0 <= j < k ==> distance(word, #[trigger] known[j]) > distance(word, best),
{
    if known.len() > 0 {
        lemma_nearest(word, known, known.len());
        lemma_first_nearest(word, known, known.len());
        let k = nearest_among(word, known, known.len());
        if let Some(best) = suggestion(word, known) {
            assert(known[k] == best);
        }
    }
}

proof fn lemma_first_nearest(word: Seq<char>, known: Seq<Seq<char>>, n: nat)
    requires
        0 < n <= known.len(),
    ensures
        0 <= nearest_among(word, known, n) < n,
        forall|j: int|
            0 <= j < nearest_among(word, known, n) ==> distance(word, #[trigger] known[j])
                > distance(word, known[nearest_among(word, known, n)]),
    decreases n,
{
    if n > 1 {
        lemma_first_nearest(word, known, (n - 1) as nat);
        lemma_nearest(word, known, (n - 1) as nat);
    }
}

fn digit_text(n: usize) -> (r: &'static str)
    requires
        n < 10,
    ensures
        r@ == seq![digit_char(n as nat)],
{
    proof {
        reveal_strlit("0");
        reveal_strlit("1");
        reveal_strlit("2");
        reveal_strlit("3");
        reveal_strlit("4");
        reveal_strlit("5");
        reveal_strlit("6");
        reveal_strlit("7");
        reveal_strlit("8");
        reveal_strlit("9");
    }
    if n == 0 {
        "0"
    } else if n == 1 {
        "1"
    } else if n == 2 {
        "2"
    } else if n == 3 {
        "3"
    } else if n == 4 {
        "4"
    } else if n == 5 {
        "5"
    } else if n == 6 {
        "6"
    } else if n == 7 {
        "7"
    } else if n == 8 {
        "8"
    } else {
        "9"
    }
}

/// The decimal numeral of a number.
pub fn decimal(n: usize) -> (r: String)
    ensures
        r@ == numeral(n as nat),
    decreases n,
{
    if n < 10 {
        digit_text(n).to_owned()
    } else {
        decimal(n / 10).concat(digit_text(n % 10))
    }
}

/// Whether two texts are the same.
pub fn same_text(a: &str, b: &str) -> (r: bool)
    ensures
        r == (a@ == b@),
{
    a.to_owned() == b.to_owned()
}

/// The parts one after another, with a separator between neighbours.
pub fn join(parts: &[String], separator: &str) -> (r: String)
    ensures
        r@ == joined(texts(parts@), separator@),
{
    let mut out = String::new();
    let mut k: usize = 0;
    while k < parts.len()
        invariant
            k <= parts@.len(),
            out@ == joined(texts(parts@).take(k as int), separator@),
        decreases parts@.len() - k,
    {
        proof {
            assert(texts(parts@).take(k + 1).drop_last() =~= texts(parts@).take(k as int));
        }
        if k > 0 {
            out.append(separator);
        }
        out.append(parts[k].as_str());
        k += 1;
    }
    proof {
        assert(texts(parts@).take(k as int) =~= texts(parts@));
    }
    out
}

/// Whether a text equals a word once its ASCII capital letters are made small.
pub fn reads_as(s: &str, word: &str) -> (r: bool)
    ensures
        r == (small(s@) == word@),
{
    let n = s.unicode_len();
    if n != word.unicode_len() {
        return false;
    }
    let mut k: usize = 0;
    while k < n
        invariant
            k <= n,
            n == s@.len(),
            n == word@.len(),
            forall|j: int| 0 <= j < k ==> small_char(s@[j]) == #[trigger] word@[j],
        decreases n - k,
    {
        let c: u32 = s.get_char(k) as u32;
        let d: u32 = word.get_char(k) as u32;
        let e: u32 = if 65 <= c && c <= 90 {
            c + 32
        } else {
            c
        };
        if e != d {
            proof {
                assert(small(s@)[k as int] != word@[k as int]);
            }
            return false;
        }
        k += 1;
    }
    proof {
        assert(small(s@) =~= word@);
    }
    true
}

/// Whether a word is one of several.
pub fn contains_text(words: &Vec<String>, word: &str) -> (r: bool)
    ensures
        r == texts(words@).contains(word@),
{
    let mut k: usize = 0;
    while k < words.len()
        invariant
            k <= words@.len(),
            forall|i: int| 0 <= i < k ==> (#[trigger] texts(words@)[i]) != word@,
        decreases words@.len() - k,
    {
        if same_text(words[k].as_str(), word) {
            proof {
                assert(texts(words@)[k as int] == word@);
            }
            return true;
        }
        k += 1;
    }
    false
}

/// Appends copies of several texts.
pub fn push_texts(out: &mut Vec<String>, more: &Vec<String>)
    ensures
        texts(final(out)@) == texts(old(out)@) + texts(more@),
{
    let ghost before = texts(out@);
    let mut k: usize = 0;
    proof {
        assert(texts(out@) =~= before + texts(more@).take(0));
    }
    while k < more.len()
        invariant
            k <= more@.len(),
            texts(out@) == before + texts(more@).take(k as int),
        decreases more@.len() - k,
    {
        push_text(out, more[k].as_str());
        k += 1;
        proof {
            assert(texts(out@) =~= before + texts(more@).take(k as int));
        }
    }
    proof {
        assert(texts(more@).take(k as int) =~= texts(more@));
    }
}

/// Appends a copy of a text.
pub fn push_text(out: &mut Vec<String>, more: &str)
    ensures
        texts(final(out)@) == texts(old(out)@) + seq![more@],
{
    out.push(more.to_owned());
    proof {
        assert(texts(out@) =~= texts(old(out)@) + seq![more@]);
    }
}

/// The characters of a text.
fn characters(s: &str) -> (r: Vec<char>)
    ensures
        r@ == s@,
{
    let n = s.unicode_len();
    let mut out: Vec<char> = Vec::new();
    let mut k: usize = 0;
    while k < n
        invariant
            k <= n,
            n == s@.len(),
            out@ == s@.take(k as int),
        decreases n - k,
    {
        out.push(s.get_char(k));
        k += 1;
    }
    out
}

/// Whether a text holds a pattern from a place on.
pub open spec fn stands_at(text: Seq<char>, pattern: Seq<char>, k: int) -> bool {
    k + pattern.len() <= text.len() && text.subrange(k, k + pattern.len()) == pattern
}

/// Whether a text holds a pattern somewhere.
pub open spec fn holds(text: Seq<char>, pattern: Seq<char>) -> bool {
    exists|k: int| 0 <= k && #[trigger] stands_at(text, pattern, k)
}

/// A text holds a pattern exactly when the characters of the pattern stand one after the
/// other somewhere in it.
pub proof fn a_pattern_is_held_where_its_characters_stand(text: Seq<char>, pattern: Seq<char>)
    ensures
        holds(text, pattern) <==> exists|before: Seq<char>, after: Seq<char>|
            text == #[trigger] (before + pattern + after),
{
    if holds(text, pattern) {
        let k = choose|k: int| 0 <= k && #[trigger] stands_at(text, pattern, k);
        let before = text.take(k);
        let after = text.skip(k + pattern.len());
        assert(text =~= before + pattern + after);
    }
    if exists|before: Seq<char>, after: Seq<char>| text == #[trigger] (before + pattern + after) {
        let (before, after) = choose|before: Seq<char>, after: Seq<char>|
            text == #[trigger] (before + pattern + after);
        let k = before.len() as int;
        assert(text.subrange(k, k + pattern.len()) =~= pattern);
        assert(stands_at(text, pattern, k));
    }
}

fn matches_at(text: &Vec<char>, pattern: &Vec<char>, k: usize) -> (r: bool)
    requires
        k + pattern@.len() <= text@.len(),
    ensures
        r == stands_at(text@, pattern@, k as int),
{
    let mut j: usize = 0;
    proof {
        assert(text.len() == text@.len());
    }
    while j < pattern.len()
        invariant
            j <= pattern@.len(),
            k + pattern@.len() <= text@.len(),
            text@.len() <= usize::MAX,
            forall|i: int| 0 <= i < j ==> text@[k + i] == #[trigger] pattern@[i],
        decreases pattern@.len() - j,
    {
        if text[k + j] != pattern[j] {
            proof {
                assert(text@.subrange(k as int, k + pattern@.len())[j as int] != pattern@[j as int]);
            }
            return false;
        }
        j += 1;
    }
    proof {
        assert(text@.subrange(k as int, k + pattern@.len()) =~= pattern@);
    }
    true
}

/// Whether a text holds a pattern somewhere.
pub fn contains(text: &str, pattern: &str) -> (r: bool)
    ensures
        r == holds(text@, pattern@),
{
    let t = characters(text);
    let p = characters(pattern);
    if p.len() > t.len() {
        return false;
    }
    let last: usize = t.len() - p.len();
    let mut k: usize = 0;
    let mut more: bool = true;
    while more
        invariant
            t@ == text@,
            p@ == pattern@,
            p@.len() <= t@.len(),
            last == t@.len() - p@.len(),
            k <= last,
            more ==> forall|i: int| 0 <= i < k ==> !#[trigger] stands_at(t@, p@, i),
            !more ==> forall|i: int| 0 <= i <= last ==> !#[trigger] stands_at(t@, p@, i),
        decreases last - k + if more {
            1int
        } else {
            0int
        },
    {
        if matches_at(&t, &p, k) {
            return true;
        }
        if k == last {
            more = false;
        } else {
            k += 1;
        }
    }
    false
}

/// The edit distance of two texts, one row of the table of prefixes at a time.
pub fn edit_distance(a: &str, b: &str) -> (r: u128)
    ensures
        r == distance(a@, b@),
{
    let x = characters(a);
    let y = characters(b);
    let mut row: Vec<u128> = Vec::new();
    let mut j: usize = 0;
    row.push(0);
    while j < y.len()
        invariant
            j <= y@.len(),
            row@.len() == j + 1,
            forall|t: int| 0 <= t <= j ==> #[trigger] row@[t] == edits(x@, 0, y@, t as nat),
        decreases y@.len() - j,
    {
        j += 1;
        row.push(j as u128);
    }
    let mut i: usize = 0;
    while i < x.len()
        invariant
            i <= x@.len(),
            row@.len() == y@.len() + 1,
            forall|t: int|
                0 <= t <= y@.len() ==> #[trigger] row@[t] == edits(x@, i as nat, y@, t as nat),
        decreases x@.len() - i,
    {
        let mut next: Vec<u128> = Vec::new();
        next.push((i as u128) + 1);
        let mut j: usize = 0;
        while j < y.len()
            invariant
                i < x@.len(),
                j <= y@.len(),
                row@.len() == y@.len() + 1,
                next@.len() == j + 1,
                forall|t: int|
                    0 <= t <= y@.len() ==> #[trigger] row@[t] == edits(
                        x@,
                        i as nat,
                        y@,
                        t as nat,
                    ),
                forall|t: int|
                    0 <= t <= j ==> #[trigger] next@[t] == edits(
                        x@,
                        (i + 1) as nat,
                        y@,
                        t as nat,
                    ),
            decreases y@.len() - j,
        {
            proof {
                lemma_edits_bound(x@, i as nat, y@, j as nat);
                lemma_edits_bound(x@, i as nat, y@, (j + 1) as nat);
                lemma_edits_bound(x@, (i + 1) as nat, y@, j as nat);
            }
            let mut best: u128 = row[j] + if x[i] == y[j] {
                0
            } else {
                1
            };
            if row[j + 1] + 1 < best {
                best = row[j + 1] + 1;
            }
            if next[j] + 1 < best {
                best = next[j] + 1;
            }
            next.push(best);
            j += 1;
        }
        row = next;
        i += 1;
    }
    row[y.len()]
}

/// The known word that a misspelling is taken for.
pub fn suggest<'a>(word: &str, known: &[&'a str]) -> (r: Option<&'a str>)
    ensures
        match r {
            Some(best) => suggestion(word@, words(known@)) == Some(best@),
            None => suggestion(word@, words(known@)) is None,
        },
{
    if known.len() == 0 {
        return None;
    }
    let mut best: usize = 0;
    let mut near: u128 = edit_distance(word, known[0]);
    let mut k: usize = 1;
    while k < known.len()
        invariant
            1 <= k <= known@.len(),
            best < known@.len(),
            best == nearest_among(word@, words(known@), k as nat),
            near == distance(word@, words(known@)[best as int]),
        decreases known@.len() - k,
    {
        let here: u128 = edit_distance(word, known[k]);
        if here < near {
            best = k;
            near = here;
        }
        k += 1;
    }
    if near <= 2 {
        Some(known[best])
    } else {
        None
    }
}

} // verus!
