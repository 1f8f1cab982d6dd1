use vstd::prelude::*;

verus! {

/// The letter for a digit below 26: `a` for 0, up to `z` for 25.
pub open spec fn letter(d: nat) -> char {
    (97 + d) as char
}

/// The name with the number `n`: the digits of `n` to the base 26, lowest first, as
/// letters. Names with one letter come first: `a` to `z`, then `ab`, `bb`, and so on.
pub open spec fn name_of(n: nat) -> Seq<char>
    decreases n,
{
    if n < 26 {
        seq![letter(n)]
    } else {
        seq![letter(n % 26)].add(name_of(n / 26))
    }
}

/// Different numbers have different names.
pub proof fn lemma_name_of_injective(i: nat, j: nat)
    requires
        name_of(i) == name_of(j),
    ensures
        i == j,
    decreases i,
{
    lemma_name_of_len(i);
    lemma_name_of_len(j);
    if i < 26 || j < 26 {
        assert(name_of(i).len() == 1 || name_of(j).len() == 1);
        assert(i < 26 && j < 26);
        assert(name_of(i)[0] == letter(i));
        assert(name_of(j)[0] == letter(j));
    } else {
        let ti = name_of(i / 26);
        let tj = name_of(j / 26);
        assert(name_of(i)[0] == letter(i % 26));
        assert(name_of(j)[0] == letter(j % 26));
        assert(i % 26 == j % 26);
        assert(ti =~= name_of(i).subrange(1, name_of(i).len() as int));
        assert(tj =~= name_of(j).subrange(1, name_of(j).len() as int));
        lemma_name_of_injective(i / 26, j / 26);
    }
}

/// A name has one letter exactly if its number is below 26.
pub proof fn lemma_name_of_len(n: nat)
    ensures
        name_of(n).len() >= 1,
        n < 26 <==> name_of(n).len() == 1,
    decreases n,
{
    if n >= 26 {
        lemma_name_of_len(n / 26);
    }
}

/// The number that digits to the base 26 stand for, lowest digit first.
pub open spec fn value(digits: Seq<u8>) -> nat
    decreases digits.len(),
{
    if digits.len() == 0 {
        0
    } else {
        digits[0] as nat + 26 * value(digits.drop_first())
    }
}

/// Digits as a number is written: at least one, each below 26, and no zero on top
/// of another digit.
pub open spec fn canonical(digits: Seq<u8>) -> bool {
    &&& digits.len() >= 1
    &&& forall|i: int| 0 <= i < digits.len() ==> digits[i] < 26
    &&& digits.len() > 1 ==> digits.last() != 0
}

/// The digits of the next number.
pub open spec fn succ(digits: Seq<u8>) -> Seq<u8>
    decreases digits.len(),
{
    if digits.len() == 0 {
        seq![1u8]
    } else if digits[0] < 25 {
        digits.update(0, (digits[0] + 1) as u8)
    } else {
        seq![0u8].add(succ(digits.drop_first()))
    }
}

/// The letters for a sequence of digits.
pub open spec fn letters(digits: Seq<u8>) -> Seq<char> {
    Seq::new(digits.len(), |i: int| letter(digits[i] as nat))
}

/// Canonical digits other than the single digit zero stand for a positive number.
proof fn lemma_value_positive(digits: Seq<u8>)
    requires
        canonical(digits),
        digits.len() > 1 || digits[0] != 0,
    ensures
        value(digits) >= 1,
    decreases digits.len(),
{
    if digits.len() > 1 {
        let rest = digits.drop_first();
        assert(rest.last() == digits.last());
        lemma_value_positive(rest);
    } else {
        assert(value(digits.drop_first()) == 0);
    }
}

/// Canonical digits spell the name of their number.
pub proof fn lemma_letters_name(digits: Seq<u8>)
    requires
        canonical(digits),
    ensures
        letters(digits) == name_of(value(digits)),
    decreases digits.len(),
{
    let rest = digits.drop_first();
    if digits.len() == 1 {
        assert(value(rest) == 0);
        assert(letters(digits) =~= seq![letter(digits[0] as nat)]);
    } else {
        assert(rest.last() == digits.last());
        lemma_value_positive(rest);
        lemma_letters_name(rest);
        let v = value(digits);
        assert(v == digits[0] as nat + 26 * value(rest));
        assert(v % 26 == digits[0] as nat && v / 26 == value(rest)) by (nonlinear_arith)
            requires
                v == digits[0] as nat + 26 * value(rest),
                digits[0] < 26,
        ;
        assert(letters(digits) =~= seq![letter(digits[0] as nat)].add(letters(rest)));
    }
}

/// The successor of canonical digits is canonical and stands for the next number.
pub proof fn lemma_succ(digits: Seq<u8>)
    requires
        digits.len() == 0 || canonical(digits),
    ensures
        canonical(succ(digits)),
        value(succ(digits)) == value(digits) + 1,
        succ(digits).len() >= digits.len(),
    decreases digits.len(),
{
    if digits.len() == 0 {
        assert(value(seq![1u8].drop_first()) == 0);
    } else if digits[0] < 25 {
        let s = digits.update(0, (digits[0] + 1) as u8);
        assert(s.drop_first() =~= digits.drop_first());
        assert(s.last() == if digits.len() == 1 {
            (digits[0] + 1) as u8
        } else {
            digits.last()
        });
    } else {
        let rest = digits.drop_first();
        if rest.len() > 0 {
            assert(rest.last() == digits.last());
        }
        lemma_succ(rest);
        let s = seq![0u8].add(succ(rest));
        assert(s.drop_first() =~= succ(rest));
        assert(s.last() == succ(rest).last());
        if succ(rest).len() == 1 {
            lemma_value_positive_succ(rest);
        }
    }
}

/// A successor of one digit is not the digit zero.
proof fn lemma_value_positive_succ(digits: Seq<u8>)
    requires
        digits.len() == 0 || canonical(digits),
        succ(digits).len() == 1,
    ensures
        succ(digits)[0] != 0,
    decreases digits.len(),
{
    if digits.len() == 0 {
    } else if digits[0] < 25 {
    } else {
        assert(succ(digits).len() == 1 + succ(digits.drop_first()).len());
        let rest = digits.drop_first();
        if rest.len() > 0 {
            assert(rest.last() == digits.last());
        }
        lemma_succ_nonempty(rest);
    }
}

/// A successor has at least one digit.
proof fn lemma_succ_nonempty(digits: Seq<u8>)
    ensures
        succ(digits).len() >= 1,
    decreases digits.len(),
{
    if digits.len() > 0 && digits[0] >= 25 {
        lemma_succ_nonempty(digits.drop_first());
    }
}

/// `String::push` appends the character to the end of the string.
pub assume_specification[ String::push ](s: &mut String, c: char)
    ensures
        final(s)@ == old(s)@.push(c),
;

/// A source of fresh variable names. It hands out `name_of(0)`, `name_of(1)`, and
/// so on, and no name twice.
pub struct NameGen {
    digits: Vec<u8>,
}

impl View for NameGen {
    type V = nat;

    /// The number of the name that comes next: as many names were handed out.
    closed spec fn view(&self) -> nat {
        value(self.digits@)
    }
}

impl NameGen {
    /// The invariant of the generator: its digits are canonical.
    pub closed spec fn wf(&self) -> bool {
        canonical(self.digits@)
    }

    /// A generator that has handed out no name yet.
    pub fn new() -> (g: NameGen)
        ensures
            g.wf(),
            g@ == 0,
    {
        let mut digits: Vec<u8> = Vec::new();
        digits.push(0);
        proof {
            assert(digits@.drop_first().len() == 0);
            assert(value(digits@.drop_first()) == 0);
        }
        NameGen { digits }
    }

    /// The next name.
    pub fn next(&mut self) -> (name: String)
        requires
            old(self).wf(),
        ensures
            final(self).wf(),
            name@ == name_of(old(self)@),
            final(self)@ == old(self)@ + 1,
    {
        let mut res = String::new();
        let n = self.digits.len();
        let mut i: usize = 0;
        while i < n
            invariant
                i <= n,
                n == self.digits@.len(),
                self.digits@ == old(self).digits@,
                canonical(self.digits@),
                res@ == letters(self.digits@.take(i as int)),
            decreases n - i,
        {
            let c = (97u8 + self.digits[i]) as char;
            res.push(c);
            assert(res@ =~= letters(self.digits@.take(i + 1)));
            i = i + 1;
        }
        proof {
            assert(self.digits@.take(n as int) =~= self.digits@);
            lemma_letters_name(self.digits@);
            lemma_succ(self.digits@);
        }
        let ghost before = self.digits@;
        let mut j: usize = 0;
        let mut carry = true;
        while carry
            invariant
                canonical(before),
                j <= self.digits@.len(),
                carry ==> self.digits@.len() == before.len(),
                carry ==> self.digits@.skip(j as int) == before.skip(j as int),
                carry ==> succ(before) == self.digits@.take(j as int).add(
                    succ(before.skip(j as int)),
                ),
                !carry ==> self.digits@ == succ(before),
            decreases (if carry { 1 + before.len() - j } else { 0 }),
        {
            let ghost cur = self.digits@;
            let ghost tail = before.skip(j as int);
            if j == self.digits.len() {
                self.digits.push(1);
                carry = false;
                assert(tail.len() == 0);
                assert(self.digits@ =~= cur.take(j as int).add(succ(tail)));
            } else {
                assert(cur[j as int] == tail[0]);
                if self.digits[j] < 25 {
                    let d = self.digits[j];
                    self.digits[j] = d + 1;
                    carry = false;
                    assert(self.digits@ =~= cur.take(j as int).add(succ(tail))) by {
                        assert(cur.skip(j as int) == tail);
                        assert(succ(tail) == tail.update(0, (tail[0] + 1) as u8));
                        assert forall|k: int| 0 <= k < self.digits@.len() implies self.digits@[k]
                            == cur.take(j as int).add(succ(tail))[k] by {
                            if k > j {
                                assert(cur[k] == tail[k - j]);
                            }
                        }
                    }
                } else {
                    self.digits[j] = 0;
                    assert(succ(tail) == seq![0u8].add(succ(tail.drop_first())));
                    assert(tail.drop_first() =~= before.skip(j + 1));
                    assert(self.digits@.skip(j + 1) =~= before.skip(j + 1)) by {
                        let now = self.digits@.skip(j + 1);
                        assert forall|k: int| 0 <= k < before.len() - j - 1 implies #[trigger] now[k]
                            == before.skip(j + 1)[k] by {
                            assert(cur[k + j + 1] == tail[k + 1]);
                        }
                    }
                    assert(self.digits@.take(j + 1).add(succ(before.skip(j + 1))) =~= cur.take(
                        j as int,
                    ).add(succ(tail)));
                    j = j + 1;
                }
            }
        }
        res
    }
}

} // verus!
