use vstd::prelude::*;

verus! {

/// The radix of the word representation, 2^32.
pub open spec fn word_base() -> int {
    0x1_0000_0000
}

/// `base` raised to the `n`-th power.
pub open spec fn power(base: int, n: nat) -> int
    decreases n,
{
    if n == 0 {
        1
    } else {
        base * power(base, (n - 1) as nat)
    }
}

/// The number that the digits `s` denote in radix `base`, least significant digit first.
pub open spec fn digits_value(s: Seq<u32>, base: int) -> int
    decreases s.len(),
{
    if s.len() == 0 {
        0
    } else {
        s[0] + base * digits_value(s.drop_first(), base)
    }
}

/// The magnitude of a word sequence.
pub open spec fn magnitude(s: Seq<u32>) -> int {
    digits_value(s, word_base())
}

/// The `n`-word encoding of `v`, least significant word first.
pub open spec fn to_words(v: nat, n: nat) -> Seq<u32>
    decreases n,
{
    if n == 0 {
        Seq::empty()
    } else {
        seq![(v % 0x1_0000_0000) as u32] + to_words(v / 0x1_0000_0000, (n - 1) as nat)
    }
}

/// The number of words of a sum: that of the longer operand, and one more
/// where the sum does not fit in it.
pub open spec fn sum_len(a: Seq<u32>, b: Seq<u32>) -> nat {
    fit(magnitude(a) + magnitude(b), if a.len() >= b.len() { a.len() } else { b.len() })
}

/// The words of the sum of `a` and `b`.
pub open spec fn sum_words(a: Seq<u32>, b: Seq<u32>) -> Seq<u32> {
    to_words((magnitude(a) + magnitude(b)) as nat, sum_len(a, b))
}

pub proof fn lemma_power_positive(base: int, n: nat)
    requires
        base >= 1,
    ensures
        power(base, n) >= 1,
    decreases n,
{
    if n > 0 {
        lemma_power_positive(base, (n - 1) as nat);
        assert(base * power(base, (n - 1) as nat) >= 1) by (nonlinear_arith)
            requires
                base >= 1,
                power(base, (n - 1) as nat) >= 1,
        ;
    }
}

pub proof fn lemma_power_monotonic(base: int, m: nat, n: nat)
    requires
        base >= 1,
        m <= n,
    ensures
        power(base, m) <= power(base, n),
    decreases n,
{
    if m < n {
        lemma_power_monotonic(base, m, (n - 1) as nat);
        lemma_power_positive(base, (n - 1) as nat);
        assert(power(base, (n - 1) as nat) <= base * power(base, (n - 1) as nat)) by (nonlinear_arith)
            requires
                base >= 1,
                power(base, (n - 1) as nat) >= 1,
        ;
    }
}

pub proof fn lemma_power_adds(base: int, m: nat, n: nat)
    ensures
        power(base, m + n) == power(base, m) * power(base, n),
    decreases m,
{
    if m > 0 {
        lemma_power_adds(base, (m - 1) as nat, n);
        assert((m + n - 1) as nat == ((m - 1) as nat + n) as nat);
        assert(base * (power(base, (m - 1) as nat) * power(base, n)) == (base * power(
            base,
            (m - 1) as nat,
        )) * power(base, n)) by (nonlinear_arith);
    }
}

/// Appending a digit at the top adds it at its place value.
pub proof fn lemma_value_push(s: Seq<u32>, x: u32, base: int)
    ensures
        digits_value(s.push(x), base) == digits_value(s, base) + x * power(base, s.len()),
    decreases s.len(),
{
    if s.len() == 0 {
        assert(s.push(x).drop_first() =~= Seq::<u32>::empty());
        assert(digits_value(s.push(x), base) == x + base * digits_value(Seq::<u32>::empty(), base));
        assert(power(base, 0) == 1);
    } else {
        assert(s.push(x).drop_first() =~= s.drop_first().push(x));
        lemma_value_push(s.drop_first(), x, base);
        let v = digits_value(s.drop_first(), base);
        let p = power(base, (s.len() - 1) as nat);
        assert(base * (v + x * p) == base * v + x * (base * p)) by (nonlinear_arith);
        assert(power(base, s.len()) == base * p);
    }
}

/// Digits below the radix denote a number below the radix raised to their count.
pub proof fn lemma_value_bound(s: Seq<u32>, base: int)
    requires
        base >= 1,
        forall|i: int| 0 <= i < s.len() ==> s[i] < base,
    ensures
        0 <= digits_value(s, base) < power(base, s.len()),
    decreases s.len(),
{
    if s.len() > 0 {
        lemma_value_bound(s.drop_first(), base);
        let v = digits_value(s.drop_first(), base);
        let p = power(base, (s.len() - 1) as nat);
        let d = s[0] as int;
        assert(0 <= d + base * v < base * p) by (nonlinear_arith)
            requires
                0 <= d < base,
                0 <= v < p,
        ;
    }
}

/// Words that stay below 2^32 are recovered from their magnitude and count.
pub proof fn lemma_words_of_magnitude(s: Seq<u32>)
    ensures
        to_words(magnitude(s) as nat, s.len()) == s,
    decreases s.len(),
{
    if s.len() > 0 {
        let t = s.drop_first();
        lemma_value_bound(t, word_base());
        lemma_words_of_magnitude(t);
        let v = magnitude(t);
        let d = s[0] as int;
        assert((d + 0x1_0000_0000 * v) % 0x1_0000_0000 == d && (d + 0x1_0000_0000 * v)
            / 0x1_0000_0000 == v) by (nonlinear_arith)
            requires
                0 <= d < 0x1_0000_0000,
                v >= 0,
        ;
        assert(to_words(magnitude(s) as nat, s.len()) =~= s);
    }
}

/// The encoding of a number that fits denotes that number.
pub proof fn lemma_magnitude_of_words(v: nat, n: nat)
    requires
        v < power(word_base(), n),
    ensures
        magnitude(to_words(v, n)) == v,
        to_words(v, n).len() == n,
    decreases n,
{
    if n > 0 {
        let q = v / 0x1_0000_0000;
        let r = v % 0x1_0000_0000;
        let p = power(word_base(), (n - 1) as nat);
        assert(q < p && v == r + 0x1_0000_0000 * q) by (nonlinear_arith)
            requires
                v < 0x1_0000_0000 * p,
                q == v / 0x1_0000_0000,
                r == v % 0x1_0000_0000,
        ;
        lemma_magnitude_of_words(q, (n - 1) as nat);
        assert(to_words(v, n).drop_first() =~= to_words(q, (n - 1) as nat));
    }
}

/// The radix of the intermediate super-digits, 10^9.
pub open spec fn super_base() -> int {
    1_000_000_000
}

/// The character of a digit below sixteen: `0`-`9`, then `a`-`f`.
pub open spec fn digit_char(d: int) -> char {
    if d == 0 { '0' }
    else if d == 1 { '1' }
    else if d == 2 { '2' }
    else if d == 3 { '3' }
    else if d == 4 { '4' }
    else if d == 5 { '5' }
    else if d == 6 { '6' }
    else if d == 7 { '7' }
    else if d == 8 { '8' }
    else if d == 9 { '9' }
    else if d == 10 { 'a' }
    else if d == 11 { 'b' }
    else if d == 12 { 'c' }
    else if d == 13 { 'd' }
    else if d == 14 { 'e' }
    else { 'f' }
}

/// The decimal numeral of `v`, without leading zeros.
pub open spec fn decimal(v: nat) -> Seq<char>
    decreases v,
{
    if v < 10 {
        seq![digit_char(v as int)]
    } else {
        decimal(v / 10).push(digit_char((v % 10) as int))
    }
}

/// The base-10 text of a value: `0` for a zero magnitude, else its numeral,
/// after a `-` where the sign is negative.
pub open spec fn rendering(words: Seq<u32>, sign: int) -> Seq<char> {
    let v = magnitude(words);
    if v == 0 {
        seq!['0']
    } else if sign < 0 {
        seq!['-'] + decimal(v as nat)
    } else {
        decimal(v as nat)
    }
}

/// The characters of decimal digits given least significant first, most significant first.
pub open spec fn numeral_of_digits(d: Seq<u32>) -> Seq<char> {
    Seq::new(d.len(), |i: int| digit_char(d[d.len() - 1 - i] as int))
}

pub proof fn lemma_power_multiplies(base: int, m: nat, n: nat)
    ensures
        power(power(base, m), n) == power(base, m * n),
    decreases n,
{
    if n > 0 {
        lemma_power_multiplies(base, m, (n - 1) as nat);
        assert(m * n == m + m * (n - 1) as nat) by (nonlinear_arith)
            requires
                n > 0,
        ;
        lemma_power_adds(base, m, m * (n - 1) as nat);
        assert(power(base, m * n) == power(base, m) * power(base, m * (n - 1) as nat));
    } else {
        assert(m * n == 0) by (nonlinear_arith)
            requires
                n == 0,
        ;
    }
}

/// Dropping a zero digit at the top keeps the number.
pub proof fn lemma_value_drop_zero(s: Seq<u32>, base: int)
    requires
        s.len() > 0,
        s.last() == 0,
    ensures
        digits_value(s.drop_last(), base) == digits_value(s, base),
{
    lemma_value_push(s.drop_last(), 0, base);
    assert(s.drop_last().push(0) =~= s);
}

/// Decimal digits whose top digit is not zero spell the numeral of their value.
pub proof fn lemma_numeral_of_digits(d: Seq<u32>)
    requires
        d.len() > 0,
        d.last() != 0,
        forall|i: int| 0 <= i < d.len() ==> d[i] < 10,
    ensures
        digits_value(d, 10) >= 1,
        decimal(digits_value(d, 10) as nat) == numeral_of_digits(d),
    decreases d.len(),
{
    let t = d.drop_first();
    if d.len() == 1 {
        assert(t =~= Seq::<u32>::empty());
        assert(numeral_of_digits(d) =~= seq![digit_char(d[0] as int)]);
    } else {
        lemma_numeral_of_digits(t);
        let v = digits_value(d, 10);
        let w = digits_value(t, 10);
        let d0 = d[0] as int;
        assert(v / 10 == w && v % 10 == d0 && v >= 10) by (nonlinear_arith)
            requires
                v == d0 + 10 * w,
                0 <= d0 < 10,
                w >= 1,
        ;
        assert(numeral_of_digits(d) =~= numeral_of_digits(t).push(digit_char(d0)));
    }
}

/// The eight lower-case hex digits of a word, most significant first.
pub open spec fn hex8(w: u32) -> Seq<char> {
    Seq::new(8, |i: int| digit_char((w as int / power(16, (7 - i) as nat)) % 16))
}

/// The words as hex groups, most significant word first, joined by `", "`.
pub open spec fn word_code(ws: Seq<u32>) -> Seq<char>
    decreases ws.len(),
{
    if ws.len() == 0 {
        Seq::empty()
    } else if ws.len() == 1 {
        hex8(ws[0])
    } else {
        word_code(ws.drop_first()) + seq![',', ' '] + hex8(ws[0])
    }
}

/// Relies on `String::push`: appends the character at the end.
#[verifier::external_body]
fn push_char(s: &mut String, c: char)
    ensures
        final(s)@ == old(s)@.push(c),
{
    s.push(c);
}

/// The character of a digit below sixteen.
fn digit_to_char(d: u32) -> (c: char)
    requires
        d < 16,
    ensures
        c == digit_char(d as int),
{
    if d == 0 { '0' }
    else if d == 1 { '1' }
    else if d == 2 { '2' }
    else if d == 3 { '3' }
    else if d == 4 { '4' }
    else if d == 5 { '5' }
    else if d == 6 { '6' }
    else if d == 7 { '7' }
    else if d == 8 { '8' }
    else if d == 9 { '9' }
    else if d == 10 { 'a' }
    else if d == 11 { 'b' }
    else if d == 12 { 'c' }
    else if d == 13 { 'd' }
    else if d == 14 { 'e' }
    else { 'f' }
}

/// A single word denotes itself.
pub proof fn lemma_single_word(w: u32)
    ensures
        magnitude(seq![w]) == w,
{
    assert(seq![w].drop_first() =~= Seq::<u32>::empty());
    assert(digits_value(Seq::<u32>::empty(), word_base()) == 0);
    assert(digits_value(seq![w], word_base()) == w + word_base() * digits_value(
        seq![w].drop_first(),
        word_base(),
    ));
}

/// The words of a sum denote the sum of the magnitudes.
pub proof fn lemma_sum_magnitude(a: Seq<u32>, b: Seq<u32>)
    ensures
        magnitude(sum_words(a, b)) == magnitude(a) + magnitude(b),
        sum_words(a, b).len() == sum_len(a, b),
{
    let m = if a.len() >= b.len() { a.len() } else { b.len() };
    lemma_value_bound(a, word_base());
    lemma_value_bound(b, word_base());
    lemma_power_monotonic(word_base(), a.len(), m);
    lemma_power_monotonic(word_base(), b.len(), m);
    assert(power(word_base(), m + 1) == word_base() * power(word_base(), m));
    lemma_magnitude_of_words((magnitude(a) + magnitude(b)) as nat, sum_len(a, b));
}

/// The least word count from `m` on that holds `v`, for a `v` that needs at most one more word.
pub open spec fn fit(v: int, m: nat) -> nat {
    if v < power(word_base(), m) {
        m
    } else {
        m + 1
    }
}

proof fn lemma_fit_absorb(v: int, m: nat, n: nat)
    requires
        m <= n <= fit(v, m),
        v < power(word_base(), m + 1),
    ensures
        fit(v, n) == fit(v, m),
{
}

/// Words no more than `m` denote a number below 2^(32 m).
proof fn lemma_operand_bound(a: Seq<u32>, m: nat)
    requires
        a.len() <= m,
    ensures
        0 <= magnitude(a) < power(word_base(), m),
{
    lemma_value_bound(a, word_base());
    lemma_power_monotonic(word_base(), a.len(), m);
}

/// Addition is commutative: both orders give the same words.
pub proof fn law_add_commutative(a: BigInteger, b: BigInteger)
    ensures
        sum_words(a.words(), b.words()) == sum_words(b.words(), a.words()),
{
}

/// Addition is associative: `(a + b) + c` and `a + (b + c)` give the same words.
pub proof fn law_add_associative(a: BigInteger, b: BigInteger, c: BigInteger)
    ensures
        sum_words(sum_words(a.words(), b.words()), c.words()) == sum_words(
            a.words(),
            sum_words(b.words(), c.words()),
        ),
{
    let (x, y, z) = (a.words(), b.words(), c.words());
    let (va, vb, vc) = (magnitude(x), magnitude(y), magnitude(z));
    let total = va + vb + vc;
    let m1 = if x.len() >= y.len() { x.len() } else { y.len() };
    let m2 = if y.len() >= z.len() { y.len() } else { z.len() };
    let big = if m1 >= z.len() { m1 } else { z.len() };
    let pm = power(word_base(), big);
    lemma_operand_bound(x, big);
    lemma_operand_bound(y, big);
    lemma_operand_bound(z, big);
    lemma_operand_bound(x, m1);
    lemma_operand_bound(y, m1);
    lemma_operand_bound(y, m2);
    lemma_operand_bound(z, m2);
    lemma_power_monotonic(word_base(), m1, big);
    lemma_power_monotonic(word_base(), m2, big);
    assert(power(word_base(), big + 1) == word_base() * pm);
    assert(power(word_base(), m1 + 1) == word_base() * power(word_base(), m1));
    assert(power(word_base(), m2 + 1) == word_base() * power(word_base(), m2));
    lemma_sum_magnitude(x, y);
    lemma_sum_magnitude(y, z);
    let xy = sum_words(x, y);
    let yz = sum_words(y, z);
    lemma_sum_magnitude(xy, z);
    lemma_sum_magnitude(x, yz);
    let left_m = if xy.len() >= z.len() { xy.len() } else { z.len() };
    let right_m = if x.len() >= yz.len() { x.len() } else { yz.len() };
    if xy.len() > m1 {
        assert(va + vb >= power(word_base(), m1));
        if z.len() <= m1 {
            assert(total >= power(word_base(), big));
        }
    }
    if yz.len() > m2 {
        assert(vb + vc >= power(word_base(), m2));
        if x.len() <= m2 {
            assert(total >= power(word_base(), big));
        }
    }
    lemma_fit_absorb(total, big, left_m);
    lemma_fit_absorb(total, big, right_m);
}

/// Adding zero gives back the words. A sum always has sign `1`, so a value
/// with sign `1` comes back whole.
pub proof fn law_add_zero_identity(a: BigInteger)
    requires
        a.wf(),
    ensures
        sum_words(a.words(), seq![0u32]) == a.words(),
{
    lemma_add_zero_words(a.words());
}

/// Adding the one-word zero to non-empty words gives them back.
pub proof fn lemma_add_zero_words(x: Seq<u32>)
    requires
        x.len() > 0,
    ensures
        sum_words(x, seq![0u32]) == x,
{
    lemma_single_word(0);
    lemma_value_bound(x, word_base());
    lemma_words_of_magnitude(x);
}

/// An arbitrary-precision integer: 32-bit words, least significant first, and a sign.
pub struct BigInteger {
    bits: Vec<u32>,
    sign: i32,
}

impl BigInteger {
    /// The words of the value, least significant first.
    pub closed spec fn words(&self) -> Seq<u32> {
        self.bits@
    }

    /// The sign field: `1` or `-1`.
    pub closed spec fn sign_value(&self) -> int {
        self.sign as int
    }

    /// At least one word, and a sign of `1` or `-1`.
    pub open spec fn wf(&self) -> bool {
        &&& self.words().len() > 0
        &&& (self.sign_value() == 1 || self.sign_value() == -1)
    }

    /// A value with a copy of the given words and a positive sign.
    pub fn new(source: &Vec<u32>) -> (r: BigInteger)
        ensures
            r.words() == source@,
            r.sign_value() == 1,
            r.wf() == (source@.len() > 0),
    {
        let vec = source.clone();
        proof {
            assert(vec@ =~= source@);
        }
        BigInteger { bits: vec, sign: 1 }
    }

    /// One word holding the 32-bit two's-complement bits of `source`, and its sign.
    pub fn from_i32(source: i32) -> (r: BigInteger)
        ensures
            r.words() == seq![((source as int) % 0x1_0000_0000) as u32],
            r.sign_value() == if source < 0 { -1int } else { 1int },
            r.wf(),
    {
        let bits: u32 = if source < 0 {
            (source as i64 + 0x1_0000_0000i64) as u32
        } else {
            source as u32
        };
        let vec = vec![bits];
        BigInteger { bits: vec, sign: if source < 0 { -1 } else { 1 } }
    }

    pub fn zero() -> (r: BigInteger)
        ensures
            r.words() == seq![0u32],
            r.sign_value() == 1,
            r.wf(),
    {
        BigInteger { bits: vec![0u32], sign: 1 }
    }

    pub fn one() -> (r: BigInteger)
        ensures
            r.words() == seq![1u32],
            r.sign_value() == 1,
            r.wf(),
    {
        BigInteger { bits: vec![1u32], sign: 1 }
    }

    /// The words in hex, most significant first: a diagnostic view.
    pub fn get_code(&self) -> (r: String)
        ensures
            r@ == word_code(self.words()),
    {
        let n = self.bits.len();
        let ghost words = self.bits@;
        let mut out = String::new();
        let mut k: usize = 0;
        while k < n
            invariant
                n == words.len(),
                words == self.bits@,
                k <= n,
                out@ == word_code(words.subrange(n - k, n as int)),
            decreases n - k,
        {
            let ghost before = out@;
            if k > 0 {
                push_char(&mut out, ',');
                push_char(&mut out, ' ');
            }
            let ghost sep = out@;
            let w = self.bits[n - 1 - k];
            let mut div: u32 = 0x1000_0000;
            let mut i: usize = 0;
            proof {
                reveal_with_fuel(power, 8);
                assert(power(16, 7) == 0x1000_0000);
            }
            while i < 8
                invariant
                    i <= 8,
                    i < 8 ==> div == power(16, (7 - i) as nat),
                    out@ == sep + hex8(w).take(i as int),
                decreases 8 - i,
            {
                proof {
                    lemma_power_positive(16, (7 - i) as nat);
                }
                let d = (w / div) % 16;
                let c = digit_to_char(d);
                push_char(&mut out, c);
                proof {
                    assert(hex8(w).take(i + 1) =~= hex8(w).take(i as int).push(c));
                }
                if i < 7 {
                    proof {
                        assert(power(16, (7 - i) as nat) == 16 * power(16, (7 - i - 1) as nat));
                        let q = power(16, (7 - i - 1) as nat);
                        assert((16 * q) / 16 == q) by (nonlinear_arith);
                    }
                    div = div / 16;
                }
                i = i + 1;
            }
            proof {
                assert(hex8(w).take(8) =~= hex8(w));
                let cur = words.subrange(n - k - 1, n as int);
                assert(cur.drop_first() =~= words.subrange(n - k, n as int));
                if k == 0 {
                    assert(before =~= Seq::<char>::empty());
                    assert(out@ =~= hex8(w));
                } else {
                    assert(out@ =~= word_code(cur.drop_first()) + seq![',', ' '] + hex8(w));
                }
            }
            k = k + 1;
        }
        proof {
            assert(words.subrange(0, n as int) =~= words);
        }
        out
    }

    /// The sum of the magnitudes; the sign of the result is always `1`.
    pub fn add(&self, other: &BigInteger) -> (r: BigInteger)
        requires
            self.wf(),
            other.wf(),
        ensures
            r.words() == sum_words(self.words(), other.words()),
            r.sign_value() == 1,
            r.wf(),
    {
        let ghost a = self.bits@;
        let ghost b = other.bits@;
        let la = self.bits.len();
        let lb = other.bits.len();
        let ghost m: nat = if la >= lb { la as nat } else { lb as nat };
        let mut buf: Vec<u32> = Vec::new();
        let mut carry: u32 = 0;
        let mut index: usize = 0;
        while index < la || index < lb
            invariant
                la == a.len(),
                lb == b.len(),
                a == self.bits@,
                b == other.bits@,
                m == if la >= lb { la as nat } else { lb as nat },
                index <= m,
                buf@.len() == index,
                carry <= 1,
                magnitude(buf@) + carry * power(word_base(), index as nat) == magnitude(
                    a.take(if index <= la { index as int } else { la as int }),
                ) + magnitude(b.take(if index <= lb { index as int } else { lb as int })),
            decreases m - index,
        {
            let ghost ta = a.take(if index <= la { index as int } else { la as int });
            let ghost tb = b.take(if index <= lb { index as int } else { lb as int });
            let ghost p = power(word_base(), index as nat);
            let mut num: u64 = carry as u64;
            let mut da: u64 = 0;
            let mut db: u64 = 0;
            if index < la {
                da = self.bits[index] as u64;
                proof {
                    assert(a.take(index + 1) =~= ta.push(a[index as int]));
                    lemma_value_push(ta, a[index as int], word_base());
                }
            }
            if index < lb {
                db = other.bits[index] as u64;
                proof {
                    assert(b.take(index + 1) =~= tb.push(b[index as int]));
                    lemma_value_push(tb, b[index as int], word_base());
                }
            }
            num = num + da + db;
            let low = (num % 0x1_0000_0000) as u32;
            let high = (num / 0x1_0000_0000) as u32;
            proof {
                lemma_value_push(buf@, low, word_base());
                assert(low * p + high * (word_base() * p) == num * p) by (nonlinear_arith)
                    requires
                        low == num % 0x1_0000_0000,
                        high == num / 0x1_0000_0000,
                        word_base() == 0x1_0000_0000,
                ;
                assert(num * p == carry * p + da * p + db * p) by (nonlinear_arith)
                    requires
                        num == carry + da + db,
                ;
            }
            buf.push(low);
            carry = high;
            index = index + 1;
        }
        proof {
            assert(a.take(la as int) =~= a);
            assert(b.take(lb as int) =~= b);
            assert(index == m);
            assert(magnitude(buf@) + carry * power(word_base(), m) == magnitude(a) + magnitude(b));
        }
        let ghost pre = buf@;
        if carry > 0 {
            proof {
                lemma_value_push(buf@, carry, word_base());
            }
            buf.push(carry);
        }
        proof {
            let total = magnitude(a) + magnitude(b);
            lemma_value_bound(buf@, word_base());
            lemma_words_of_magnitude(buf@);
            lemma_value_bound(pre, word_base());
            if carry == 0 {
                assert(buf@ == pre);
                assert(total < power(word_base(), m));
            } else {
                assert(carry == 1);
                assert(total >= power(word_base(), m));
            }
        }
        BigInteger { bits: buf, sign: 1 }
    }
    /// The base-10 text of the value.
    pub fn to_string(&self) -> (r: String)
        ensures
            r@ == rendering(self.words(), self.sign_value()),
    {
        let n = self.bits.len();
        let ghost words = self.bits@;
        // Horner's rule from the most significant word down, in base 10^9.
        let mut sd: Vec<u32> = Vec::new();
        let mut k: usize = 0;
        while k < n
            invariant
                n == words.len(),
                words == self.bits@,
                k <= n,
                digits_value(sd@, super_base()) == magnitude(words.subrange(n - k, n as int)),
                forall|i: int| 0 <= i < sd@.len() ==> sd@[i] < super_base(),
                sd@.len() > 0 ==> digits_value(sd@, super_base()) > 0,
            decreases n - k,
        {
            let w = self.bits[n - 1 - k];
            let mut carry: u32 = w;
            let cu = sd.len();
            let ghost old_sd = sd@;
            let mut j: usize = 0;
            while j < cu
                invariant
                    cu == sd@.len(),
                    cu == old_sd.len(),
                    j <= cu,
                    forall|i: int| 0 <= i < sd@.len() ==> sd@[i] < super_base(),
                    sd@.subrange(j as int, cu as int) == old_sd.subrange(j as int, cu as int),
                    digits_value(sd@.take(j as int), super_base()) + carry * power(super_base(), j as nat)
                        == digits_value(old_sd.take(j as int), super_base()) * word_base() + w,
                decreases cu - j,
            {
                let x64 = sd[j] as u64;
                let c64 = carry as u64;
                assert(x64 < 0x1_0000_0000 && c64 < 0x1_0000_0000);
                let combined: u64 = (x64 << 32u64) | c64;
                assert((x64 << 32u64) | c64 == x64 * 0x1_0000_0000 + c64) by (bit_vector)
                    requires
                        x64 < 0x1_0000_0000,
                        c64 < 0x1_0000_0000,
                ;
                let digit = (combined % 1_000_000_000) as u32;
                let ghost next_carry = combined as int / 1_000_000_000;
                proof {
                    let x = x64 as int;
                    let c = c64 as int;
                    let comb = combined as int;
                    let p = power(super_base(), j as nat);
                    let lo = digits_value(sd@.take(j as int), super_base());
                    let olo = digits_value(old_sd.take(j as int), super_base());
                    assert(old_sd[j as int] == sd@[j as int]) by {
                        assert(sd@.subrange(j as int, cu as int)[0] == old_sd.subrange(j as int, cu as int)[0]);
                    }
                    assert(x < 1_000_000_000);
                    assert(next_carry < 0x1_0000_0000) by (nonlinear_arith)
                        requires
                            comb == x * 0x1_0000_0000 + c,
                            0 <= x < 1_000_000_000,
                            0 <= c < 0x1_0000_0000,
                            next_carry == comb / 1_000_000_000,
                    ;
                    lemma_value_push(sd@.take(j as int), digit, super_base());
                    lemma_value_push(old_sd.take(j as int), old_sd[j as int], super_base());
                    assert(old_sd.take(j + 1) =~= old_sd.take(j as int).push(old_sd[j as int]));
                    assert(digit * p + next_carry * (1_000_000_000 * p) == comb * p) by (nonlinear_arith)
                        requires
                            digit == comb % 1_000_000_000,
                            next_carry == comb / 1_000_000_000,
                            comb >= 0,
                    ;
                    assert((olo + x * p) * 0x1_0000_0000 + c64 * p == olo * 0x1_0000_0000 + (x * 0x1_0000_0000 + c) * p) by (nonlinear_arith)
                        requires
                            c == c64,
                    ;
                    assert(lo + c * p == olo * 0x1_0000_0000 + w);
                }
                let ghost pre_set = sd@;
                sd.set(j, digit);
                carry = (combined / 1_000_000_000) as u32;
                proof {
                    assert(sd@.take(j + 1) =~= sd@.take(j as int).push(digit));
                    assert(sd@.take(j as int) =~= pre_set.take(j as int));
                    assert(sd@.subrange(j + 1, cu as int) =~= old_sd.subrange(j + 1, cu as int)) by {
                        assert(old_sd.subrange(j + 1, cu as int) =~= old_sd.subrange(j as int, cu as int).drop_first());
                    }
                }
                j = j + 1;
            }
            proof {
                assert(sd@.take(cu as int) =~= sd@);
                assert(old_sd.take(cu as int) =~= old_sd);
                assert(words.subrange(n - k - 1, n as int).drop_first() =~= words.subrange(n - k, n as int));
            }
            let ghost before_push = sd@;
            if carry != 0 {
                let low = carry % 1_000_000_000;
                let high = carry / 1_000_000_000;
                proof {
                    let p = power(super_base(), cu as nat);
                    lemma_value_push(sd@, low, super_base());
                    lemma_value_push(sd@.push(low), high, super_base());
                    assert(low * p + high * (1_000_000_000 * p) == carry * p) by (nonlinear_arith)
                        requires
                            low == carry % 1_000_000_000,
                            high == carry / 1_000_000_000,
                    ;
                }
                sd.push(low);
                if high != 0 {
                    sd.push(high);
                } else {
                    proof {
                        assert(high * power(super_base(), (cu + 1) as nat) == 0);
                    }
                }
            }
            proof {
                let ov = digits_value(old_sd, super_base());
                assert(digits_value(sd@, super_base()) == ov * word_base() + w);
                if sd@.len() > 0 && ov == 0 {
                    assert(cu == 0);
                    assert(power(super_base(), 0) == 1);
                    assert(before_push =~= Seq::<u32>::empty());
                    assert(carry == w);
                }
                assert(ov >= 0) by {
                    lemma_value_bound(old_sd, super_base());
                }
                assert(ov * word_base() >= 0) by (nonlinear_arith)
                    requires
                        ov >= 0,
                ;
                assert(ov > 0 ==> ov * word_base() > 0) by (nonlinear_arith);
            }
            k = k + 1;
        }
        proof {
            assert(words.subrange(0, n as int) =~= words);
        }
        let mut out = String::new();
        if sd.len() == 0 {
            push_char(&mut out, '0');
            return out;
        }
        // Nine decimal digits for each super-digit, least significant first.
        let ghost sv = sd@;
        let cu = sd.len();
        let mut ds: Vec<u32> = Vec::new();
        let mut j: usize = 0;
        while j < cu
            invariant
                sv == sd@,
                cu == sv.len(),
                j <= cu,
                ds@.len() == 9 * j,
                forall|i: int| 0 <= i < ds@.len() ==> ds@[i] < 10,
                forall|i: int| 0 <= i < sv.len() ==> sv[i] < super_base(),
                digits_value(ds@, 10) == digits_value(sv.take(j as int), super_base()),
            decreases cu - j,
        {
            let mut u = sd[j];
            let mut t: usize = 0;
            proof {
                reveal_with_fuel(power, 10);
                assert(power(10, 9) == 1_000_000_000);
            }
            while t < 9
                invariant
                    sv == sd@,
                    j < cu,
                    cu == sv.len(),
                    t <= 9,
                    ds@.len() == 9 * j + t,
                    forall|i: int| 0 <= i < ds@.len() ==> ds@[i] < 10,
                    u < power(10, (9 - t) as nat),
                    digits_value(ds@, 10) + u * power(10, ds@.len()) == digits_value(sv.take(j as int), super_base())
                        + sv[j as int] * power(10, 9 * j as nat),
                decreases 9 - t,
            {
                let d = u % 10;
                proof {
                    let l = ds@.len();
                    lemma_value_push(ds@, d, 10);
                    assert(power(10, l + 1) == 10 * power(10, l));
                    assert(power(10, (9 - t) as nat) == 10 * power(10, (9 - t - 1) as nat));
                    let pl = power(10, l);
                    let pt = power(10, (9 - t - 1) as nat);
                    assert(d * pl + (u / 10) * (10 * pl) == u * pl && u / 10 < pt) by (nonlinear_arith)
                        requires
                            d == u % 10,
                            u < 10 * pt,
                    ;
                }
                ds.push(d);
                u = u / 10;
                t = t + 1;
            }
            proof {
                lemma_power_multiplies(10, 9, j as nat);
                lemma_value_push(sv.take(j as int), sv[j as int], super_base());
                assert(sv.take(j + 1) =~= sv.take(j as int).push(sv[j as int]));
                assert(power(10, 0) == 1);
                assert(u == 0);
            }
            j = j + 1;
        }
        proof {
            assert(sv.take(cu as int) =~= sv);
        }
        // Leading zeros go; the value is not zero, so a digit stays.
        let mut len: usize = ds.len();
        assert(ds@.take(len as int) =~= ds@);
        while len > 0 && ds[len - 1] == 0
            invariant
                len <= ds@.len(),
                digits_value(ds@.take(len as int), 10) == digits_value(sv, super_base()),
            decreases len,
        {
            proof {
                let s = ds@.take(len as int);
                lemma_value_drop_zero(s, 10);
                assert(s.drop_last() =~= ds@.take(len - 1));
            }
            len = len - 1;
        }
        let ghost top = ds@.take(len as int);
        proof {
            if len == 0 {
                assert(top =~= Seq::<u32>::empty());
            }
            lemma_numeral_of_digits(top);
        }
        if self.sign < 0 {
            push_char(&mut out, '-');
        }
        let ghost prefix = out@;
        let mut i: usize = 0;
        while i < len
            invariant
                i <= len,
                len <= ds@.len(),
                top == ds@.take(len as int),
                forall|q: int| 0 <= q < ds@.len() ==> ds@[q] < 10,
                out@ == prefix + numeral_of_digits(top).take(i as int),
            decreases len - i,
        {
            let c = digit_to_char(ds[len - 1 - i]);
            push_char(&mut out, c);
            proof {
                assert(numeral_of_digits(top).take(i + 1) =~= numeral_of_digits(top).take(i as int).push(c));
            }
            i = i + 1;
        }
        proof {
            assert(numeral_of_digits(top).take(len as int) =~= numeral_of_digits(top));
            if self.sign >= 0 {
                assert(prefix =~= Seq::<char>::empty());
                assert(out@ =~= numeral_of_digits(top));
            }
        }
        out
    }
}

impl Clone for BigInteger {
    fn clone(&self) -> (r: BigInteger)
        ensures
            r.words() == self.words(),
            r.sign_value() == self.sign_value(),
    {
        let bits = self.bits.clone();
        proof {
            assert(bits@ =~= self.bits@);
        }
        BigInteger { bits, sign: self.sign }
    }
}

} // verus!
