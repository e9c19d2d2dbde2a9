//! Comma-separated lists of numbers on a command line.
use crate::text;
use crate::text::chars_of;
use vstd::prelude::*;

verus! {

/// Whether a character is white space, as Unicode has it.
pub open spec fn white(c: char) -> bool {
    let n = c as int;
    ||| 0x09 <= n <= 0x0d
    ||| n == 0x20
    ||| n == 0x85
    ||| n == 0xa0
    ||| n == 0x1680
    ||| 0x2000 <= n <= 0x200a
    ||| n == 0x2028
    ||| n == 0x2029
    ||| n == 0x202f
    ||| n == 0x205f
    ||| n == 0x3000
}

fn is_white(c: char) -> (b: bool)
    ensures
        b == white(c),
{
    let n: u32 = c as u32;
    (n >= 0x09 && n <= 0x0d) || n == 0x20 || n == 0x85 || n == 0xa0 || n == 0x1680 || (n >= 0x2000 && n
        <= 0x200a) || n == 0x2028 || n == 0x2029 || n == 0x202f || n == 0x205f || n == 0x3000
}

/// What a digit stands for.
pub open spec fn digit(c: char) -> Option<nat> {
    if 0x30 <= c as int <= 0x39 {
        Some((c as int - 0x30) as nat)
    } else {
        None
    }
}

fn digit_of(c: char) -> (d: Option<usize>)
    ensures
        match d {
            Some(n) => digit(c) == Some(n as nat),
            None => digit(c) is None,
        },
{
    let n: u32 = c as u32;
    if 0x30 <= n && n <= 0x39 {
        Some((n - 0x30) as usize)
    } else {
        None
    }
}

/// The number that digits spell.
pub open spec fn value(s: Seq<char>) -> Option<nat>
    decreases s.len(),
{
    if s.len() == 0 {
        Some(0)
    } else if value(s.drop_last()) is Some && digit(s.last()) is Some {
        Some(value(s.drop_last())->0 * 10 + digit(s.last())->0)
    } else {
        None
    }
}

/// The digits of a number: what follows a leading plus sign, if there is one.
pub open spec fn unsigned(s: Seq<char>) -> Seq<char> {
    if s.len() > 0 && s[0] == '+' {
        s.skip(1)
    } else {
        s
    }
}

/// The number a field holds, if it holds one that fits.
pub open spec fn number(s: Seq<char>) -> Option<usize> {
    let d = unsigned(s);
    if d.len() > 0 && value(d) is Some && value(d)->0 <= usize::MAX {
        Some(value(d)->0 as usize)
    } else {
        None
    }
}

/// A field without the white space around it.
pub open spec fn trimmed(s: Seq<char>) -> Seq<char>
    decreases s.len(),
{
    if s.len() > 0 && white(s[0]) {
        trimmed(s.skip(1))
    } else if s.len() > 0 && white(s.last()) {
        trimmed(s.drop_last())
    } else {
        s
    }
}

/// The fields between commas: one more than there are commas.
pub open spec fn fields(s: Seq<char>) -> Seq<Seq<char>>
    decreases s.len(),
{
    if s.len() == 0 {
        seq![Seq::empty()]
    } else {
        let f = fields(s.drop_last());
        if s.last() == ',' {
            f.push(Seq::empty())
        } else {
            f.drop_last().push(f.last().push(s.last()))
        }
    }
}

/// The number each field of a list holds, if it holds one.
pub open spec fn entries(s: Seq<char>) -> Seq<Option<usize>> {
    fields(s).map_values(|f: Seq<char>| number(trimmed(f)))
}

proof fn lemma_value_prefix(s: Seq<char>, i: int)
    requires
        0 <= i <= s.len(),
        value(s) is Some,
    ensures
        value(s.take(i)) is Some,
        value(s.take(i))->0 <= value(s)->0,
    decreases s.len(),
{
    if i == s.len() {
        assert(s.take(i) =~= s);
    } else {
        lemma_value_prefix(s.drop_last(), i);
        assert(s.drop_last().take(i) =~= s.take(i));
    }
}

fn parse_number(s: &[char], from: usize, to: usize) -> (r: Option<usize>)
    requires
        from <= to <= s@.len(),
    ensures
        r == number(s@.subrange(from as int, to as int)),
{
    let ghost whole = s@.subrange(from as int, to as int);
    let start: usize = if from < to && s[from] == '+' {
        from + 1
    } else {
        from
    };
    let ghost d = unsigned(whole);
    assert(d =~= s@.subrange(start as int, to as int));
    if start == to {
        return None;
    }
    let mut n: usize = 0;
    let mut i: usize = start;
    assert(d.take(0) =~= Seq::empty());
    while i < to
        invariant
            from <= start <= i <= to <= s@.len(),
            start < to,
            d == s@.subrange(start as int, to as int),
            d == unsigned(whole),
            whole == s@.subrange(from as int, to as int),
            value(d.take(i - start)) == Some(n as nat),
        decreases to - i,
    {
        let c: char = s[i];
        let ghost done = d.take(i - start);
        let ghost next = d.take(i + 1 - start);
        proof {
            assert(next.drop_last() =~= done);
            assert(next.last() == c);
            if value(d) is Some {
                lemma_value_prefix(d, i + 1 - start);
            }
        }
        let unit: usize = match digit_of(c) {
            Some(u) => u,
            None => {
                return None;
            },
        };
        let tens: usize = match n.checked_mul(10) {
            Some(t) => t,
            None => {
                return None;
            },
        };
        n = match tens.checked_add(unit) {
            Some(t) => t,
            None => {
                return None;
            },
        };
        i += 1;
    }
    assert(d.take(to - start) =~= d);
    Some(n)
}

/// The number of one field, without the white space around it.
fn parse_field(s: &[char], from: usize, to: usize) -> (r: Option<usize>)
    requires
        from <= to <= s@.len(),
    ensures
        r == number(trimmed(s@.subrange(from as int, to as int))),
    decreases to - from,
{
    let ghost f = s@.subrange(from as int, to as int);
    if from < to && is_white(s[from]) {
        assert(f.skip(1) =~= s@.subrange(from + 1, to as int));
        return parse_field(s, from + 1, to);
    }
    if from < to && is_white(s[to - 1]) {
        assert(f.drop_last() =~= s@.subrange(from as int, to - 1));
        return parse_field(s, from, to - 1);
    }
    parse_number(s, from, to)
}

/// The number each field of a list holds, if it holds one.
fn parse_entries(list: &str) -> (v: Vec<Option<usize>>)
    ensures
        v@ == entries(list@),
{
    let s = chars_of(list);
    let ghost all = list@;
    let mut v: Vec<Option<usize>> = Vec::new();
    let mut start: usize = 0;
    let mut i: usize = 0;
    proof {
        assert(all.take(0) =~= Seq::empty());
        assert(all.subrange(0, 0) =~= Seq::empty());
        assert(fields(all.take(0)) =~= seq![Seq::empty()]);
    }
    while i < s.len()
        invariant
            s@ == all,
            start <= i <= all.len(),
            fields(all.take(i as int)).len() > 0,
            fields(all.take(i as int)).last() == all.subrange(start as int, i as int),
            v@ == fields(all.take(i as int)).drop_last().map_values(
                |f: Seq<char>| number(trimmed(f)),
            ),
        decreases all.len() - i,
    {
        let ghost before = fields(all.take(i as int));
        let ghost next = all.take(i + 1);
        proof {
            assert(next.drop_last() =~= all.take(i as int));
            assert(next.last() == all[i as int]);
        }
        if s[i] == ',' {
            let n = parse_field(s.as_slice(), start, i);
            v.push(n);
            start = i + 1;
            proof {
                assert(fields(next).drop_last() =~= before);
                assert(all.subrange(start as int, i + 1) =~= Seq::empty());
                assert(v@ =~= before.map_values(|f: Seq<char>| number(trimmed(f))));
            }
        } else {
            proof {
                assert(all.subrange(start as int, i + 1) =~= before.last().push(all[i as int]));
                assert(fields(next).drop_last() =~= before.drop_last());
            }
        }
        i += 1;
    }
    assert(all.take(i as int) =~= all);
    let n = parse_field(s.as_slice(), start, i);
    v.push(n);
    assert(v@ =~= entries(all));
    v
}

/// The fields of a list as words, without the white space around them.
pub open spec fn names_of(s: Seq<char>) -> Seq<Seq<char>> {
    fields(s).map_values(|f: Seq<char>| trimmed(f))
}

/// The words of a list of strings.
pub open spec fn texts(v: Seq<String>) -> Seq<Seq<char>> {
    Seq::new(v.len(), |i: int| v[i]@)
}

fn trim(s: &[char], from: usize, to: usize) -> (r: String)
    requires
        from <= to <= s@.len(),
    ensures
        r@ == trimmed(s@.subrange(from as int, to as int)),
    decreases to - from,
{
    let ghost f = s@.subrange(from as int, to as int);
    if from < to && is_white(s[from]) {
        assert(f.skip(1) =~= s@.subrange(from + 1, to as int));
        return trim(s, from + 1, to);
    }
    if from < to && is_white(s[to - 1]) {
        assert(f.drop_last() =~= s@.subrange(from as int, to - 1));
        return trim(s, from, to - 1);
    }
    text::string_of(s, from, to)
}

/// The fields of a list as words, without the white space around them.
pub fn names(list: &str) -> (v: Vec<String>)
    ensures
        texts(v@) == names_of(list@),
{
    let s = chars_of(list);
    let ghost all = list@;
    let mut v: Vec<String> = Vec::new();
    let mut start: usize = 0;
    let mut i: usize = 0;
    proof {
        assert(all.take(0) =~= Seq::empty());
        assert(all.subrange(0, 0) =~= Seq::empty());
        assert(fields(all.take(0)) =~= seq![Seq::empty()]);
    }
    while i < s.len()
        invariant
            s@ == all,
            start <= i <= all.len(),
            fields(all.take(i as int)).len() > 0,
            fields(all.take(i as int)).last() == all.subrange(start as int, i as int),
            texts(v@) == fields(all.take(i as int)).drop_last().map_values(
                |f: Seq<char>| trimmed(f),
            ),
        decreases all.len() - i,
    {
        let ghost before = fields(all.take(i as int));
        let ghost next = all.take(i + 1);
        proof {
            assert(next.drop_last() =~= all.take(i as int));
            assert(next.last() == all[i as int]);
        }
        if s[i] == ',' {
            let ghost words = texts(v@);
            let word = trim(s.as_slice(), start, i);
            v.push(word);
            start = i + 1;
            proof {
                assert(texts(v@) =~= words.push(word@));
                assert(fields(next).drop_last() =~= before);
                assert(all.subrange(start as int, i + 1) =~= Seq::empty());
                assert(texts(v@) =~= before.map_values(|f: Seq<char>| trimmed(f)));
            }
        } else {
            proof {
                assert(all.subrange(start as int, i + 1) =~= before.last().push(all[i as int]));
                assert(fields(next).drop_last() =~= before.drop_last());
            }
        }
        i += 1;
    }
    assert(all.take(i as int) =~= all);
    let ghost words = texts(v@);
    let word = trim(s.as_slice(), start, i);
    v.push(word);
    assert(texts(v@) =~= words.push(word@));
    assert(texts(v@) =~= names_of(all));
    v
}

/// Whether a word is among the words of a list.
pub fn has(v: &Vec<String>, word: &str) -> (b: bool)
    ensures
        b == texts(v@).contains(word@),
{
    let mut i: usize = 0;
    while i < v.len()
        invariant
            i <= v@.len(),
            forall|k: int| 0 <= k < i ==> texts(v@)[k] != word@,
        decreases v@.len() - i,
    {
        if text::same_text(v[i].as_str(), word) {
            assert(texts(v@)[i as int] == word@);
            return true;
        }
        i += 1;
    }
    false
}

/// The numbers of a list that lie in a range, in order.
pub open spec fn kept(e: Seq<Option<usize>>, low: usize, high: usize) -> Seq<usize>
    decreases e.len(),
{
    if e.len() == 0 {
        Seq::empty()
    } else {
        let k = kept(e.drop_last(), low, high);
        if e.last() is Some && low <= e.last()->0 <= high {
            k.push(e.last()->0)
        } else {
            k
        }
    }
}

/// The numbers of a list that lie in a range. Fields that hold none are passed
/// over.
pub fn numbers(list: &str, low: usize, high: usize) -> (v: Vec<usize>)
    ensures
        v@ == kept(entries(list@), low, high),
{
    let e = parse_entries(list);
    let mut v: Vec<usize> = Vec::new();
    let mut i: usize = 0;
    assert(e@.take(0) =~= Seq::empty());
    while i < e.len()
        invariant
            i <= e@.len(),
            v@ == kept(e@.take(i as int), low, high),
        decreases e@.len() - i,
    {
        proof {
            assert(e@.take(i + 1).drop_last() =~= e@.take(i as int));
        }
        if let Some(n) = e[i] {
            if low <= n && n <= high {
                v.push(n);
            }
        }
        i += 1;
    }
    assert(e@.take(i as int) =~= e@);
    v
}

/// Why a list was refused.
#[derive(Debug, Clone, Copy, PartialEq, Eq, Structural)]
pub enum ListError {
    /// A field that is not a number.
    Invalid,
    /// A number that must be positive.
    Zero,
    /// A prompt that does not fit with its output.
    TooLong { len: usize, context: usize },
}

impl ListError {
    /// The error in words, where the list is of `what`.
    pub open spec fn text(self, what: Seq<char>) -> Seq<char> {
        match self {
            ListError::Invalid => "invalid "@ + what,
            ListError::Zero => "benchmark shapes must be positive"@,
            ListError::TooLong { len, context } => "prompt "@ + text::decimal(len as nat)
                + " plus output exceeds context "@ + text::decimal(context as nat),
        }
    }

    /// The error in words, where the list is of `what`.
    pub fn message(&self, what: &str) -> (m: String)
        ensures
            m@ == self.text(what@),
    {
        let mut m = String::new();
        match self {
            ListError::Invalid => {
                m.append("invalid ");
                m.append(what);
            },
            ListError::Zero => {
                m.append("benchmark shapes must be positive");
            },
            ListError::TooLong { len, context } => {
                m.append("prompt ");
                text::push_decimal(&mut m, *len as u64);
                m.append(" plus output exceeds context ");
                text::push_decimal(&mut m, *context as u64);
            },
        }
        assert(m@ =~= self.text(what@));
        m
    }
}

/// What a number of a list must be.
#[derive(Debug, Clone, Copy, PartialEq, Eq, Structural)]
pub enum Bound {
    /// Any number.
    Any,
    /// A positive one.
    Positive,
    /// A prompt that fits a context with `steps` tokens of output, the first of
    /// which takes no position of its own.
    Prompt { steps: usize, context: usize },
}

impl Bound {
    /// Why a field is refused, if it is.
    pub open spec fn refusal(self, entry: Option<usize>) -> Option<ListError> {
        match entry {
            None => Some(ListError::Invalid),
            Some(n) => match self {
                Bound::Any => None,
                Bound::Positive => if n == 0 {
                    Some(ListError::Zero)
                } else {
                    None
                },
                Bound::Prompt { steps, context } => if n == 0 || n + (steps - 1) > context {
                    Some(ListError::TooLong { len: n, context })
                } else {
                    None
                },
            },
        }
    }
}

/// Why a list is refused: the first field that is.
pub open spec fn first_refusal(b: Bound, e: Seq<Option<usize>>) -> Option<ListError>
    decreases e.len(),
{
    if e.len() == 0 {
        None
    } else if first_refusal(b, e.drop_last()) is Some {
        first_refusal(b, e.drop_last())
    } else {
        b.refusal(e.last())
    }
}

proof fn lemma_refusal_prefix(b: Bound, e: Seq<Option<usize>>, i: int)
    requires
        0 <= i <= e.len(),
        first_refusal(b, e.take(i)) is Some,
    ensures
        first_refusal(b, e) == first_refusal(b, e.take(i)),
    decreases e.len(),
{
    if i == e.len() {
        assert(e.take(i) =~= e);
    } else {
        assert(e.drop_last().take(i) =~= e.take(i));
        lemma_refusal_prefix(b, e.drop_last(), i);
    }
}

/// Every number of a list, which must all be as the bound says.
pub fn all_numbers(list: &str, bound: Bound) -> (r: Result<Vec<usize>, ListError>)
    requires
        bound matches Bound::Prompt { steps, .. } ==> steps > 0,
    ensures
        match r {
            Ok(v) => {
                &&& first_refusal(bound, entries(list@)) is None
                &&& v@.map_values(|n: usize| Some(n)) =~= entries(list@)
            },
            Err(e) => first_refusal(bound, entries(list@)) == Some(e),
        },
{
    let e = parse_entries(list);
    let mut v: Vec<usize> = Vec::new();
    let mut i: usize = 0;
    assert(e@.take(0) =~= Seq::empty());
    while i < e.len()
        invariant
            e@ == entries(list@),
            bound matches Bound::Prompt { steps, .. } ==> steps > 0,
            i <= e@.len(),
            v@.len() == i,
            first_refusal(bound, e@.take(i as int)) is None,
            forall|k: int| 0 <= k < i ==> e@[k] == Some(#[trigger] v@[k]),
        decreases e@.len() - i,
    {
        proof {
            assert(e@.take(i + 1).drop_last() =~= e@.take(i as int));
            if bound.refusal(e@[i as int]) is Some {
                lemma_refusal_prefix(bound, e@, i + 1);
            }
        }
        let n: usize = match e[i] {
            Some(n) => n,
            None => {
                return Err(ListError::Invalid);
            },
        };
        match bound {
            Bound::Any => {},
            Bound::Positive => {
                if n == 0 {
                    return Err(ListError::Zero);
                }
            },
            Bound::Prompt { steps, context } => {
                let fits = match n.checked_add(steps - 1) {
                    Some(m) => m <= context,
                    None => false,
                };
                if n == 0 || !fits {
                    return Err(ListError::TooLong { len: n, context });
                }
            },
        }
        v.push(n);
        i += 1;
    }
    assert(e@.take(i as int) =~= e@);
    Ok(v)
}

/// A number in decimal is read as that number, with a plus sign or without.
pub proof fn law_numbers_are_read(n: usize)
    ensures
        number(text::decimal(n as nat)) == Some(n),
        number(seq!['+'] + text::decimal(n as nat)) == Some(n),
{
    lemma_decimal_value(n as nat);
    text::law_decimal_reads_back(n as nat);
    let d = text::decimal(n as nat);
    assert('0' <= d[0]);
    assert((seq!['+'] + d).skip(1) =~= d);
}

proof fn lemma_decimal_value(n: nat)
    ensures
        value(text::decimal(n)) == Some(n),
    decreases n,
{
    let d = text::decimal(n);
    assert(text::digit_char((n % 10) as int) as int == 0x30 + n % 10);
    if n < 10 {
        assert(d.drop_last() =~= Seq::empty());
        assert(value(d.drop_last()) == Some(0nat));
    } else {
        lemma_decimal_value(n / 10);
        assert(d.drop_last() =~= text::decimal(n / 10));
    }
}

/// A list is read in order: commas part its fields, and what stands behind a comma
/// adds fields without touching those before it.
pub proof fn law_fields_are_parted_by_commas(a: Seq<char>, b: Seq<char>)
    ensures
        fields(a).len() > 0,
        fields(a + seq![','] + b) == fields(a) + fields(b),
        (forall|i: int| 0 <= i < a.len() ==> #[trigger] a[i] != ',') ==> fields(a) == seq![a],
    decreases b.len(), a.len(),
{
    lemma_fields(a);
    let s = a + seq![','] + b;
    if b.len() == 0 {
        assert(s.drop_last() =~= a);
        assert(s.last() == ',');
        assert(fields(s) =~= fields(a) + fields(b));
    } else {
        assert(s.drop_last() =~= a + seq![','] + b.drop_last());
        assert(s.last() == b.last());
        law_fields_are_parted_by_commas(a, b.drop_last());
        lemma_fields(b.drop_last());
        assert(fields(s) =~= fields(a) + fields(b));
    }
}

proof fn lemma_fields(a: Seq<char>)
    ensures
        fields(a).len() > 0,
        (forall|i: int| 0 <= i < a.len() ==> #[trigger] a[i] != ',') ==> fields(a) == seq![a],
    decreases a.len(),
{
    if a.len() > 0 {
        lemma_fields(a.drop_last());
        if forall|i: int| 0 <= i < a.len() ==> #[trigger] a[i] != ',' {
            assert forall|i: int| 0 <= i < a.drop_last().len() implies #[trigger] a.drop_last()[i] != ',' by {
                assert(a.drop_last()[i] == a[i]);
            }
            assert(a.last() == a[a.len() - 1]);
            assert(a.drop_last().push(a.last()) =~= a);
            assert(fields(a) =~= seq![a]);
        }
    } else {
        assert(a =~= Seq::empty());
        assert(fields(a) =~= seq![a]);
    }
}

/// Whether a text is another from place `a` on, and all around it is white space.
pub open spec fn within(s: Seq<char>, t: Seq<char>, a: int) -> bool {
    &&& 0 <= a
    &&& a + t.len() <= s.len()
    &&& s.subrange(a, a + t.len() as int) == t
    &&& forall|i: int| 0 <= i < s.len() && !(a <= i < a + t.len()) ==> white(#[trigger] s[i])
}

/// White space around a field is not part of it, and nothing else is taken away.
pub proof fn law_white_space_is_trimmed(s: Seq<char>) -> (a: int)
    ensures
        within(s, trimmed(s), a),
        trimmed(s).len() > 0 ==> !white(trimmed(s)[0]) && !white(trimmed(s).last()),
    decreases s.len(),
{
    let t = trimmed(s);
    if s.len() > 0 && white(s[0]) {
        let r = s.skip(1);
        let a = law_white_space_is_trimmed(r);
        assert(s.subrange(a + 1, a + 1 + t.len() as int) =~= r.subrange(a, a + t.len() as int));
        assert forall|i: int| 0 <= i < s.len() && !(a + 1 <= i < a + 1 + t.len()) implies white(#[trigger] s[i]) by {
            if i > 0 {
                assert(white(r[i - 1]));
            }
        }
        a + 1
    } else if s.len() > 0 && white(s.last()) {
        let r = s.drop_last();
        let a = law_white_space_is_trimmed(r);
        assert(s.subrange(a, a + t.len() as int) =~= r.subrange(a, a + t.len() as int));
        assert forall|i: int| 0 <= i < s.len() && !(a <= i < a + t.len()) implies white(#[trigger] s[i]) by {
            if i < r.len() {
                assert(white(r[i]));
            }
        }
        a
    } else {
        assert(s.subrange(0, t.len() as int) =~= t);
        0
    }
}

/// A list passes exactly where every field holds a number that may stand there.
pub proof fn law_what_lists_pass(b: Bound, e: Seq<Option<usize>>)
    ensures
        first_refusal(b, e) is None <==> forall|i: int|
            0 <= i < e.len() ==> {
                let n = #[trigger] e[i];
                &&& n is Some
                &&& b is Positive ==> n->0 > 0
                &&& b matches Bound::Prompt { steps, context } ==> n->0 > 0 && n->0 + (steps - 1) <= context
            },
    decreases e.len(),
{
    if e.len() > 0 {
        let some = e.drop_last();
        law_what_lists_pass(b, some);
        assert(e.last() == e[e.len() - 1]);
        assert(forall|i: int| 0 <= i < some.len() ==> #[trigger] some[i] == e[i]);
        if first_refusal(b, some) is Some {
            let i = choose|i: int|
                0 <= i < some.len() && !({
                    let n = #[trigger] some[i];
                    &&& n is Some
                    &&& b is Positive ==> n->0 > 0
                    &&& b matches Bound::Prompt { steps, context } ==> n->0 > 0 && n->0 + (steps - 1)
                        <= context
                });
            assert(e[i] == some[i]);
        } else if b.refusal(e.last()) is None {
            assert forall|i: int| 0 <= i < e.len() implies {
                let n = #[trigger] e[i];
                &&& n is Some
                &&& b is Positive ==> n->0 > 0
                &&& b matches Bound::Prompt { steps, context } ==> n->0 > 0 && n->0 + (steps - 1) <= context
            } by {
                if i < some.len() {
                    assert(some[i] == e[i]);
                }
            }
        }
    }
}

} // verus!
