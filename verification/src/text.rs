//! Texts: what counts as whitespace at the ends of one, and the type of a
//! text that is not blank.

use vstd::prelude::*;
use vstd::string::*;

verus! {

/// Whether `c` has the Unicode property White_Space.
pub open spec fn is_whitespace(c: char) -> bool {
    let code = c as u32;
    ||| 0x09 <= code <= 0x0D
    ||| code == 0x20
    ||| code == 0x85
    ||| code == 0xA0
    ||| code == 0x1680
    ||| 0x2000 <= code <= 0x200A
    ||| code == 0x2028
    ||| code == 0x2029
    ||| code == 0x202F
    ||| code == 0x205F
    ||| code == 0x3000
}

/// `s` without the whitespace that leads it.
pub open spec fn trim_start(s: Seq<char>) -> Seq<char>
    decreases s.len(),
{
    if s.len() > 0 && is_whitespace(s[0]) {
        trim_start(s.drop_first())
    } else {
        s
    }
}

/// `s` without the whitespace that ends it.
pub open spec fn trim_end(s: Seq<char>) -> Seq<char>
    decreases s.len(),
{
    if s.len() > 0 && is_whitespace(s.last()) {
        trim_end(s.drop_last())
    } else {
        s
    }
}

/// `s` without the whitespace at either end.
pub open spec fn trim(s: Seq<char>) -> Seq<char> {
    trim_end(trim_start(s))
}

/// Whether `s` is empty or holds whitespace only.
pub open spec fn is_blank(s: Seq<char>) -> bool {
    trim(s).len() == 0
}

/// Trimming at the start leaves what follows the whitespace that leads.
pub proof fn lemma_trim_start(s: Seq<char>, first: int)
    requires
        0 <= first <= s.len(),
        forall|k: int| 0 <= k < first ==> is_whitespace(s[k]),
        first < s.len() ==> !is_whitespace(s[first]),
    ensures
        trim_start(s) == s.subrange(first, s.len() as int),
    decreases s.len(),
{
    if s.len() > 0 && is_whitespace(s[0]) {
        let rest = s.drop_first();
        assert forall|k: int| 0 <= k < first - 1 implies is_whitespace(rest[k]) by {
            assert(rest[k] == s[k + 1]);
        }
        lemma_trim_start(rest, first - 1);
        assert(rest.subrange(first - 1, rest.len() as int) =~= s.subrange(first, s.len() as int));
    } else {
        assert(s.subrange(0, s.len() as int) =~= s);
    }
}

/// Trimming at the end leaves what precedes the whitespace that ends.
pub proof fn lemma_trim_end(s: Seq<char>, end: int)
    requires
        0 <= end <= s.len(),
        forall|k: int| end <= k < s.len() ==> is_whitespace(s[k]),
        end > 0 ==> !is_whitespace(s[end - 1]),
    ensures
        trim_end(s) == s.subrange(0, end),
    decreases s.len(),
{
    if s.len() > 0 && is_whitespace(s.last()) {
        let front = s.drop_last();
        lemma_trim_end(front, end);
        assert(front.subrange(0, end) =~= s.subrange(0, end));
    } else {
        assert(s.subrange(0, s.len() as int) =~= s);
    }
}

/// What is trimmed has no whitespace at its ends.
pub proof fn lemma_trim_ends(s: Seq<char>)
    ensures
        trim(s).len() > 0 ==> !is_whitespace(trim(s)[0]) && !is_whitespace(trim(s).last()),
        trim(s).len() <= s.len(),
{
    lemma_trim_start_ends(s);
    lemma_trim_end_ends(trim_start(s));
}

proof fn lemma_trim_start_ends(s: Seq<char>)
    ensures
        trim_start(s).len() > 0 ==> !is_whitespace(trim_start(s)[0]),
        trim_start(s).len() <= s.len(),
    decreases s.len(),
{
    if s.len() > 0 && is_whitespace(s[0]) {
        lemma_trim_start_ends(s.drop_first());
    }
}

proof fn lemma_trim_end_ends(s: Seq<char>)
    ensures
        trim_end(s).len() > 0 ==> !is_whitespace(trim_end(s).last()),
        trim_end(s).len() > 0 ==> s.len() > 0 && trim_end(s)[0] == s[0],
        trim_end(s).len() <= s.len(),
    decreases s.len(),
{
    if s.len() > 0 && is_whitespace(s.last()) {
        lemma_trim_end_ends(s.drop_last());
    }
}

/// Trimming what is trimmed changes nothing.
pub proof fn lemma_trim_idempotent(s: Seq<char>)
    ensures
        trim(trim(s)) == trim(s),
{
    lemma_trim_ends(s);
}

/// Whether `c` is whitespace.
pub fn whitespace(c: char) -> (r: bool)
    ensures
        r == is_whitespace(c),
{
    let code = c as u32;
    (0x09 <= code && code <= 0x0D) || code == 0x20 || code == 0x85 || code == 0xA0 || code
        == 0x1680 || (0x2000 <= code && code <= 0x200A) || code == 0x2028 || code == 0x2029
        || code == 0x202F || code == 0x205F || code == 0x3000
}

/// The text without the whitespace at either end.
pub fn trimmed(text: &str) -> (r: &str)
    ensures
        r@ == trim(text@),
{
    let mut count: usize = 0;
    let mut first: usize = 0;
    let mut end: usize = 0;
    let mut found = false;
    let total = text.unicode_len();
    for c in it: text.chars()
        invariant
            total == text@.len(),
            it.seq() == text@,
            count == it.index(),
            found ==> first < end <= count,
            found ==> !is_whitespace(text@[first as int]) && !is_whitespace(text@[end - 1]),
            found ==> forall|k: int| 0 <= k < first ==> is_whitespace(text@[k]),
            forall|k: int|
                (if found {
                    end as int
                } else {
                    0int
                }) <= k < count ==> is_whitespace(text@[k]),
    {
        if !whitespace(c) {
            if !found {
                first = count;
                found = true;
            }
            end = count + 1;
        }
        count = count + 1;
    }
    if found {
        proof {
            lemma_trim_start(text@, first as int);
            let rest = text@.subrange(first as int, text@.len() as int);
            lemma_trim_end(rest, end - first);
            assert(rest.subrange(0, end - first) =~= text@.subrange(first as int, end as int));
        }
        text.substring_char(first, end)
    } else {
        proof {
            lemma_trim_start(text@, text@.len() as int);
            assert(text@.subrange(text@.len() as int, text@.len() as int) =~= Seq::<char>::empty());
            assert(trim_end(Seq::<char>::empty()) == Seq::<char>::empty());
        }
        text.substring_char(0, 0)
    }
}

/// A text that is not blank: it holds something besides whitespace. The
/// text is kept as it was given, whitespace at its ends included.
#[derive(Debug, PartialEq, Eq)]
pub struct Expression {
    text: String,
}

impl View for Expression {
    type V = Seq<char>;

    closed spec fn view(&self) -> Seq<char> {
        self.text@
    }
}

impl Clone for Expression {
    fn clone(&self) -> (copy: Expression)
        ensures
            copy@ == self@,
    {
        proof {
            use_type_invariant(self);
        }
        Expression { text: self.text.clone() }
    }
}

impl Expression {
    #[verifier::type_invariant]
    spec fn well_formed(self) -> bool {
        !is_blank(self.text@)
    }

    /// The expression that holds `raw`; none where `raw` is blank.
    pub fn new(raw: &str) -> (r: Option<Expression>)
        ensures
            r is Some <==> !is_blank(raw@),
            r matches Some(e) ==> e@ == raw@,
    {
        if trimmed(raw).unicode_len() == 0 {
            None
        } else {
            Some(Expression { text: raw.to_owned() })
        }
    }

    /// The text, as it was given.
    pub fn as_str(&self) -> (r: &str)
        ensures
            r@ == self@,
            !is_blank(r@),
    {
        proof {
            use_type_invariant(self);
        }
        self.text.as_str()
    }

    /// A copy of the text, as it was given.
    pub fn to_string(&self) -> (r: String)
        ensures
            r@ == self@,
    {
        self.text.clone()
    }
}

} // verus!
