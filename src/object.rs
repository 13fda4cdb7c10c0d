//! Objects: the dynamically typed values that flow between sockets.
use vstd::prelude::*;
use core::cmp::Ordering;
use crate::class::TextParser;
use crate::module::path_valid;
use crate::node::{
    abs_id_text, lemma_abs_id_round_trip, lemma_abs_id_text_free, parsed_abs_id, AbsIdView,
    AbsoluteNodeId, AbsoluteNodeIdParseError,
};
use crate::text::{
    all_digits, chars_of, decimal_text, digits_value, free_of, has_prefix, last_index,
    last_index_of, lemma_last_index_append,
    lemma_last_index_bounds, parse_decimal, push_char, push_decimal, push_str, split_chars,
    split_on, string_of_range, text_is, trim_bounds, trim_spaces,
};

verus! {

/// An object as plain values.
pub enum ObjectView {
    Any(Seq<char>),
    Text(Seq<char>),
    Bool(bool),
    Number(int),
    Array(Seq<ObjectView>),
    Subroutine(AbsIdView, AbsIdView),
}

/// The universal class: a wrapped string convertible to any class with a parser.
#[derive(Debug)]
pub struct AnyType(pub String);

/// A first-class subroutine: its entry and exit nodes.
#[derive(Debug)]
pub struct Subroutine {
    pub input: AbsoluteNodeId,
    pub output: AbsoluteNodeId,
}

/// A value with an intrinsic class. Numbers are held as 64-bit integers.
#[derive(Debug)]
pub enum Object {
    Any(AnyType),
    Text(String),
    Bool(bool),
    Number(i64),
    Array(Vec<Object>),
    Subroutine(Subroutine),
}

#[derive(Debug, Clone, Copy, PartialEq, Eq, Structural)]
pub enum ObjectError {
    /// The object has no number reading.
    NotANumber,
    /// The object has no boolean reading.
    NotABool,
    /// Only objects of class `any` can be cast.
    CastUnsupported,
    /// The target class has no from-text parser.
    NoParser,
    /// The text does not read as an object of the class.
    ParseFailed,
    /// The class has no fields.
    NoFields,
    /// The class has fields, but not this one.
    UnknownField,
}

#[derive(Debug, Clone, PartialEq, Eq)]
pub enum SubroutineParseError {
    InvalidFormat,
    InputNodeIdParseError(AbsoluteNodeIdParseError),
    OutputNodeIdParseError(AbsoluteNodeIdParseError),
}

pub open spec fn true_text() -> Seq<char> {
    seq!['t', 'r', 'u', 'e']
}

pub open spec fn false_text() -> Seq<char> {
    seq!['f', 'a', 'l', 's', 'e']
}

pub open spec fn subroutine_prefix() -> Seq<char> {
    seq!['s', 'u', 'b', 'r', 'o', 'u', 't', 'i', 'n', 'e', ':']
}

/// Signed decimal text of an integer.
pub open spec fn number_text(n: int) -> Seq<char> {
    if n < 0 {
        seq!['-'] + decimal_text((-n) as nat)
    } else {
        decimal_text(n as nat)
    }
}

/// What reading a text as a number gives: an optional minus, then decimal digits,
/// within the range of a 64-bit signed integer.
pub open spec fn parsed_number(s: Seq<char>) -> Option<int> {
    if s.len() > 0 && s[0] == '-' {
        let d = s.subrange(1, s.len() as int);
        if d.len() > 0 && all_digits(d) && digits_value(d) <= 0x8000_0000_0000_0000 {
            Some(-digits_value(d))
        } else {
            None
        }
    } else if s.len() > 0 && all_digits(s) && digits_value(s) <= i64::MAX {
        Some(digits_value(s) as int)
    } else {
        None
    }
}

/// Items joined with a comma and a space.
pub open spec fn join_items(parts: Seq<Seq<char>>) -> Seq<char>
    decreases parts.len(),
{
    if parts.len() == 0 {
        Seq::<char>::empty()
    } else if parts.len() == 1 {
        parts[0]
    } else {
        join_items(parts.drop_last()) + seq![',', ' '] + parts.last()
    }
}

pub open spec fn subroutine_text(a: AbsIdView, b: AbsIdView) -> Seq<char> {
    subroutine_prefix() + abs_id_text(a.0, a.1, a.2) + seq![':'] + abs_id_text(b.0, b.1, b.2)
}

/// The textual rendering of an object.
pub open spec fn text_of(v: ObjectView) -> Seq<char>
    decreases v,
{
    match v {
        ObjectView::Any(s) => s,
        ObjectView::Text(s) => s,
        ObjectView::Bool(b) => if b {
            true_text()
        } else {
            false_text()
        },
        ObjectView::Number(n) => number_text(n),
        ObjectView::Array(items) => seq!['['] + join_items(item_texts(items)) + seq![']'],
        ObjectView::Subroutine(a, b) => subroutine_text(a, b),
    }
}

/// The texts of a list of objects.
pub open spec fn item_texts(items: Seq<ObjectView>) -> Seq<Seq<char>>
    decreases items,
{
    if items.len() == 0 {
        Seq::<Seq<char>>::empty()
    } else {
        item_texts(items.subrange(0, items.len() - 1)).push(text_of(items[items.len() - 1]))
    }
}

/// The name of the class of an object.
pub open spec fn class_name_of(v: ObjectView) -> Seq<char> {
    match v {
        ObjectView::Any(_) => seq!['a', 'n', 'y'],
        ObjectView::Text(_) => seq!['s', 't', 'r', 'i', 'n', 'g'],
        ObjectView::Bool(_) => seq!['b', 'o', 'o', 'l'],
        ObjectView::Number(_) => seq!['n', 'u', 'm', 'b', 'e', 'r'],
        ObjectView::Array(_) => seq!['a', 'r', 'r', 'a', 'y'],
        ObjectView::Subroutine(_, _) => subroutine_prefix().drop_last(),
    }
}

/// Boolean reading: text and arrays are truthy iff non-empty, numbers iff non-zero.
pub open spec fn truthy(v: ObjectView) -> Option<bool> {
    match v {
        ObjectView::Any(s) => Some(s.len() > 0),
        ObjectView::Text(s) => Some(s.len() > 0),
        ObjectView::Bool(b) => Some(b),
        ObjectView::Number(n) => Some(n != 0),
        ObjectView::Array(items) => Some(items.len() > 0),
        ObjectView::Subroutine(_, _) => None,
    }
}

/// Number reading: text is parsed, booleans are 1 or 0.
pub open spec fn number_of(v: ObjectView) -> Option<int> {
    match v {
        ObjectView::Any(s) => parsed_number(s),
        ObjectView::Text(s) => parsed_number(s),
        ObjectView::Bool(b) => Some(if b {
            1int
        } else {
            0int
        }),
        ObjectView::Number(n) => Some(n),
        _ => None,
    }
}

/// What reading a text as an array gives: a bracketed, comma-separated list whose
/// items, without their surrounding spaces, become objects of class `any`.
pub open spec fn parsed_array(s: Seq<char>) -> Option<Seq<Seq<char>>> {
    if s.len() >= 2 && s[0] == '[' && s.last() == ']' {
        let inner = s.subrange(1, s.len() - 1);
        if trim_spaces(inner).len() == 0 {
            Some(Seq::<Seq<char>>::empty())
        } else {
            Some(split_on(inner, ',').map_values(|p: Seq<char>| trim_spaces(p)))
        }
    } else {
        None
    }
}

/// What reading a text as a subroutine gives: `subroutine:<entry>:<exit>`, split at
/// the last colon.
pub open spec fn parsed_subroutine(s: Seq<char>) -> Result<
    (AbsIdView, AbsIdView),
    SubroutineParseError,
> {
    let n = subroutine_prefix().len();
    let rest = s.subrange(n as int, s.len() as int);
    let k = last_index_of(rest, ':');
    if !(s.len() >= n && s.subrange(0, n as int) == subroutine_prefix()) {
        Err(SubroutineParseError::InvalidFormat)
    } else if k < 0 {
        Err(SubroutineParseError::InvalidFormat)
    } else {
        match parsed_abs_id(rest.subrange(0, k)) {
            Err(e) => Err(SubroutineParseError::InputNodeIdParseError(e)),
            Ok(a) => match parsed_abs_id(rest.subrange(k + 1, rest.len() as int)) {
                Err(e) => Err(SubroutineParseError::OutputNodeIdParseError(e)),
                Ok(b) => Ok((a, b)),
            },
        }
    }
}

/// What a class's from-text parser makes of a text.
pub open spec fn from_text_view(p: TextParser, s: Seq<char>) -> Option<ObjectView> {
    match p {
        TextParser::Any => Some(ObjectView::Any(s)),
        TextParser::Text => Some(ObjectView::Text(s)),
        TextParser::Bool => if s == true_text() {
            Some(ObjectView::Bool(true))
        } else if s == false_text() {
            Some(ObjectView::Bool(false))
        } else {
            None
        },
        TextParser::Number => match parsed_number(s) {
            Some(n) => Some(ObjectView::Number(n)),
            None => None,
        },
        TextParser::Array => match parsed_array(s) {
            Some(items) => Some(
                ObjectView::Array(items.map_values(|x: Seq<char>| ObjectView::Any(x))),
            ),
            None => None,
        },
        TextParser::Subroutine => match parsed_subroutine(s) {
            Ok((a, b)) => Some(ObjectView::Subroutine(a, b)),
            Err(_) => None,
        },
    }
}

/// What casting an object to a class with the given parser gives.
pub open spec fn cast_view(v: ObjectView, parser: Option<TextParser>) -> Result<
    ObjectView,
    ObjectError,
> {
    match v {
        ObjectView::Any(s) => match parser {
            None => Err(ObjectError::NoParser),
            Some(p) => match from_text_view(p, s) {
                Some(o) => Ok(o),
                None => Err(ObjectError::ParseFailed),
            },
        },
        _ => Err(ObjectError::CastUnsupported),
    }
}

/// Lexicographic order of two texts, character by character.
pub open spec fn text_cmp(a: Seq<char>, b: Seq<char>) -> Ordering
    decreases a.len(),
{
    if a.len() == 0 && b.len() == 0 {
        Ordering::Equal
    } else if a.len() == 0 {
        Ordering::Less
    } else if b.len() == 0 {
        Ordering::Greater
    } else if a[0] < b[0] {
        Ordering::Less
    } else if a[0] > b[0] {
        Ordering::Greater
    } else {
        text_cmp(a.drop_first(), b.drop_first())
    }
}

/// Partial order of objects: defined between two numbers, two booleans, or two texts of
/// the same class; objects of different classes, arrays and subroutines are incomparable.
pub open spec fn cmp_view(a: ObjectView, b: ObjectView) -> Option<Ordering> {
    match (a, b) {
        (ObjectView::Number(x), ObjectView::Number(y)) => Some(
            if x < y {
                Ordering::Less
            } else if x == y {
                Ordering::Equal
            } else {
                Ordering::Greater
            },
        ),
        (ObjectView::Bool(x), ObjectView::Bool(y)) => Some(
            if x == y {
                Ordering::Equal
            } else if !x {
                Ordering::Less
            } else {
                Ordering::Greater
            },
        ),
        (ObjectView::Text(x), ObjectView::Text(y)) => Some(text_cmp(x, y)),
        (ObjectView::Any(x), ObjectView::Any(y)) => Some(text_cmp(x, y)),
        _ => None,
    }
}

pub open spec fn len_field() -> Seq<char> {
    seq!['l', 'e', 'n']
}

/// Reading a field of an object: an array's items by number and its `len`; a number's
/// `is_integer` and `as_integer`.
pub open spec fn field_view(v: ObjectView, f: ObjectView) -> Result<ObjectView, ObjectError> {
    match v {
        ObjectView::Array(items) => match f {
            ObjectView::Number(i) => if 0 <= i < items.len() {
                Ok(items[i])
            } else {
                Err(ObjectError::UnknownField)
            },
            _ => if text_of(f) == len_field() && items.len() <= i64::MAX {
                Ok(ObjectView::Number(items.len() as int))
            } else {
                Err(ObjectError::UnknownField)
            },
        },
        ObjectView::Number(n) => if text_of(f) == "is_integer"@ {
            Ok(ObjectView::Bool(true))
        } else if text_of(f) == "as_integer"@ {
            Ok(ObjectView::Number(n))
        } else {
            Err(ObjectError::UnknownField)
        },
        _ => Err(ObjectError::NoFields),
    }
}

fn text_compare(a: &String, b: &String) -> (r: Ordering)
    ensures
        r == text_cmp(a@, b@),
{
    let x = chars_of(a.as_str());
    let y = chars_of(b.as_str());
    let mut i: usize = 0;
    assert(x@.subrange(0, x@.len() as int) =~= a@);
    assert(y@.subrange(0, y@.len() as int) =~= b@);
    while i < x.len() && i < y.len()
        invariant
            i <= x@.len(),
            i <= y@.len(),
            text_cmp(a@, b@) == text_cmp(x@.subrange(i as int, x@.len() as int), y@.subrange(
                i as int,
                y@.len() as int,
            )),
        decreases x@.len() - i,
    {
        let ghost xs = x@.subrange(i as int, x@.len() as int);
        let ghost ys = y@.subrange(i as int, y@.len() as int);
        assert(xs[0] == x@[i as int]);
        assert(ys[0] == y@[i as int]);
        if x[i] < y[i] {
            return Ordering::Less;
        }
        if x[i] > y[i] {
            return Ordering::Greater;
        }
        assert(xs.drop_first() =~= x@.subrange(i + 1, x@.len() as int));
        assert(ys.drop_first() =~= y@.subrange(i + 1, y@.len() as int));
        i = i + 1;
    }
    if x.len() == i && y.len() == i {
        Ordering::Equal
    } else if x.len() == i {
        Ordering::Less
    } else {
        Ordering::Greater
    }
}

/// Reads a signed decimal number from `v[lo..hi]`.
pub fn parse_number(v: &Vec<char>, lo: usize, hi: usize) -> (r: Option<i64>)
    requires
        lo <= hi <= v@.len(),
    ensures
        match parsed_number(v@.subrange(lo as int, hi as int)) {
            Some(n) => r == Some(n as i64) && i64::MIN <= n <= i64::MAX,
            None => r is None,
        },
{
    let ghost s = v@.subrange(lo as int, hi as int);
    if lo < hi && v[lo] == '-' {
        assert(s.subrange(1, s.len() as int) =~= v@.subrange(lo + 1, hi as int));
        match parse_decimal(v, lo + 1, hi, 0x8000_0000_0000_0000) {
            Some(d) => Some((0i128 - d as i128) as i64),
            None => None,
        }
    } else {
        match parse_decimal(v, lo, hi, 0x7FFF_FFFF_FFFF_FFFF) {
            Some(d) => Some(d as i64),
            None => None,
        }
    }
}

/// Appends the signed decimal text of `n`.
pub fn push_number(out: &mut String, n: i64)
    ensures
        final(out)@ == old(out)@ + number_text(n as int),
{
    let ghost start = out@;
    if n < 0 {
        push_char(out, '-');
        push_decimal(out, (0i128 - n as i128) as u64);
        assert(out@ =~= start + number_text(n as int));
    } else {
        push_decimal(out, n as u64);
    }
}

impl Subroutine {
    pub open spec fn input_view(&self) -> AbsIdView {
        self.input.id_view()
    }

    pub open spec fn output_view(&self) -> AbsIdView {
        self.output.id_view()
    }

    pub fn copy(&self) -> (r: Subroutine)
        ensures
            r.input_view() == self.input_view(),
            r.output_view() == self.output_view(),
    {
        Subroutine { input: self.input.copy(), output: self.output.copy() }
    }

    /// Appends `subroutine:<entry>:<exit>`.
    pub fn write_text(&self, out: &mut String)
        ensures
            final(out)@ == old(out)@ + subroutine_text(self.input_view(), self.output_view()),
    {
        let ghost start = out@;
        let prefix = String::from_str("subroutine:");
        proof {
            reveal_strlit("subroutine:");
        }
        push_str(out, &prefix);
        self.input.write_text(out);
        push_char(out, ':');
        self.output.write_text(out);
        assert(out@ =~= start + subroutine_text(self.input_view(), self.output_view()));
    }

    /// Reads `subroutine:<entry>:<exit>`.
    pub fn parse(s: &str) -> (r: Result<Subroutine, SubroutineParseError>)
        ensures
            match parsed_subroutine(s@) {
                Ok((a, b)) => r is Ok && r->Ok_0.input_view() == a && r->Ok_0.output_view() == b,
                Err(e) => r == Err::<Subroutine, SubroutineParseError>(e),
            },
    {
        let v = chars_of(s);
        proof {
            reveal_strlit("subroutine:");
            assert("subroutine:"@ =~= subroutine_prefix());
        }
        if !has_prefix(&v, 0, v.len(), "subroutine:") {
            return Err(SubroutineParseError::InvalidFormat);
        }
        let ghost rest = v@.subrange(11, v@.len() as int);
        assert(subroutine_prefix().len() == 11);
        let tail = string_of_range(&v, 11, v.len());
        let t = chars_of(tail.as_str());
        assert(t@ == rest);
        proof {
            lemma_last_index_bounds(t@, ':');
        }
        match last_index(&t, ':') {
            None => Err(SubroutineParseError::InvalidFormat),
            Some(k) => {
                assert(k < t.len());
                let left = string_of_range(&t, 0, k);
                let right = string_of_range(&t, k + 1, t.len());
                assert(left@ == rest.subrange(0, k as int));
                assert(right@ == rest.subrange(k + 1, rest.len() as int));
                match AbsoluteNodeId::parse(left.as_str()) {
                    Err(e) => Err(SubroutineParseError::InputNodeIdParseError(e)),
                    Ok(a) => match AbsoluteNodeId::parse(right.as_str()) {
                        Err(e) => Err(SubroutineParseError::OutputNodeIdParseError(e)),
                        Ok(b) => Ok(Subroutine { input: a, output: b }),
                    },
                }
            },
        }
    }
}

impl Object {
    pub open spec fn view(&self) -> ObjectView
        decreases self,
    {
        match self {
            Object::Any(a) => ObjectView::Any(a.0@),
            Object::Text(s) => ObjectView::Text(s@),
            Object::Bool(b) => ObjectView::Bool(*b),
            Object::Number(n) => ObjectView::Number(*n as int),
            Object::Array(a) => ObjectView::Array(
                Seq::new(
                    a@.len(),
                    |i: int|
                        if 0 <= i < a@.len() {
                            a@[i].view()
                        } else {
                            ObjectView::Bool(false)
                        },
                ),
            ),
            Object::Subroutine(s) => ObjectView::Subroutine(s.input_view(), s.output_view()),
        }
    }

    /// An independent copy of the object.
    pub fn copy(&self) -> (r: Object)
        ensures
            r.view() == self.view(),
        decreases self,
    {
        match self {
            Object::Any(a) => Object::Any(AnyType(a.0.clone())),
            Object::Text(s) => Object::Text(s.clone()),
            Object::Bool(b) => Object::Bool(*b),
            Object::Number(n) => Object::Number(*n),
            Object::Array(a) => {
                let mut items: Vec<Object> = Vec::new();
                let mut i: usize = 0;
                while i < a.len()
                    invariant
                        self is Array && self->Array_0 == *a,
                        i <= a@.len(),
                        items@.len() == i,
                        forall|j: int| 0 <= j < i ==> (#[trigger] items@[j]).view() == a@[j].view(),
                    decreases a@.len() - i,
                {
                    proof {
                        vstd::std_specs::vec::axiom_vec_index_decreases(*a, i as int);
                        assert(decreases_to!(*self => self->Array_0));
                        assert(decreases_to!(*self => a[i as int]));
                    }
                    let c = a[i].copy();
                    items.push(c);
                    i = i + 1;
                }
                let r = Object::Array(items);
                assert(r.view() =~= self.view()) by {
                    if let ObjectView::Array(x) = r.view() {
                        if let ObjectView::Array(y) = self.view() {
                            assert(x =~= y);
                        }
                    }
                }
                r
            },
            Object::Subroutine(s) => Object::Subroutine(s.copy()),
        }
    }

    /// The name of the object's class.
    pub fn class_name(&self) -> (r: String)
        ensures
            r@ == class_name_of(self.view()),
    {
        let r = match self {
            Object::Any(_) => String::from_str("any"),
            Object::Text(_) => String::from_str("string"),
            Object::Bool(_) => String::from_str("bool"),
            Object::Number(_) => String::from_str("number"),
            Object::Array(_) => String::from_str("array"),
            Object::Subroutine(_) => String::from_str("subroutine"),
        };
        proof {
            reveal_strlit("any");
            reveal_strlit("string");
            reveal_strlit("bool");
            reveal_strlit("number");
            reveal_strlit("array");
            reveal_strlit("subroutine");
        }
        assert(r@ =~= class_name_of(self.view()));
        r
    }

    /// Appends the textual rendering of the object.
    pub fn write_text(&self, out: &mut String)
        ensures
            final(out)@ == old(out)@ + text_of(self.view()),
        decreases self,
    {
        let ghost start = out@;
        match self {
            Object::Any(a) => push_str(out, &a.0),
            Object::Text(s) => push_str(out, s),
            Object::Bool(b) => {
                proof {
                    reveal_strlit("true");
                    reveal_strlit("false");
                }
                if *b {
                    push_str(out, &String::from_str("true"));
                } else {
                    push_str(out, &String::from_str("false"));
                }
                assert(out@ =~= start + text_of(self.view()));
            },
            Object::Number(n) => push_number(out, *n),
            Object::Array(a) => {
                let ghost items = self.view()->Array_0;
                assert(items.len() == a@.len());
                assert(forall|j: int| 0 <= j < items.len() ==> #[trigger] items[j] == a@[j].view());
                push_char(out, '[');
                let mut i: usize = 0;
                assert(items.subrange(0, 0) =~= Seq::<ObjectView>::empty());
                while i < a.len()
                    invariant
                        self is Array && self->Array_0 == *a,
                        i <= a@.len(),
                        items == self.view()->Array_0,
                        items.len() == a@.len(),
                        forall|j: int| 0 <= j < items.len() ==> #[trigger] items[j] == a@[j].view(),
                        out@ == start + seq!['['] + join_items(
                            item_texts(items.subrange(0, i as int)),
                        ),
                    decreases a@.len() - i,
                {
                    if i > 0 {
                        push_char(out, ',');
                        push_char(out, ' ');
                    }
                    proof {
                        vstd::std_specs::vec::axiom_vec_index_decreases(*a, i as int);
                        assert(decreases_to!(*self => self->Array_0));
                        assert(decreases_to!(*self => a[i as int]));
                    }
                    a[i].write_text(out);
                    proof {
                        let p = items.subrange(0, i + 1);
                        assert(p.subrange(0, i as int) =~= items.subrange(0, i as int));
                        assert(p[i as int] == items[i as int]);
                        let t = item_texts(p);
                        assert(t == item_texts(items.subrange(0, i as int)).push(
                            text_of(items[i as int]),
                        ));
                        assert(t.drop_last() =~= item_texts(items.subrange(0, i as int)));
                        if i == 0 {
                            assert(item_texts(items.subrange(0, 0)) =~= Seq::<Seq<char>>::empty());
                            assert(t.len() == 1);
                            assert(join_items(t) == t[0]);
                        }
                    }
                    i = i + 1;
                    assert(out@ =~= start + seq!['['] + join_items(
                        item_texts(items.subrange(0, i as int)),
                    ));
                }
                push_char(out, ']');
                assert(items.subrange(0, i as int) =~= items);
                assert(out@ =~= start + text_of(self.view()));
            },
            Object::Subroutine(s) => s.write_text(out),
        }
    }

    /// The textual rendering of the object.
    pub fn as_text(&self) -> (r: String)
        ensures
            r@ == text_of(self.view()),
    {
        let mut r = String::new();
        self.write_text(&mut r);
        assert(r@ =~= text_of(self.view()));
        r
    }

    /// The object read as a boolean.
    pub fn as_bool(&self) -> (r: Result<bool, ObjectError>)
        ensures
            match truthy(self.view()) {
                Some(b) => r == Ok::<bool, ObjectError>(b),
                None => r == Err::<bool, ObjectError>(ObjectError::NotABool),
            },
    {
        match self {
            Object::Any(a) => Ok(a.0.unicode_len() > 0),
            Object::Text(s) => Ok(s.unicode_len() > 0),
            Object::Bool(b) => Ok(*b),
            Object::Number(n) => Ok(*n != 0),
            Object::Array(a) => Ok(a.len() > 0),
            Object::Subroutine(_) => Err(ObjectError::NotABool),
        }
    }

    /// The object read as a number.
    pub fn as_number(&self) -> (r: Result<i64, ObjectError>)
        ensures
            match number_of(self.view()) {
                Some(n) => r == Ok::<i64, ObjectError>(n as i64) && i64::MIN <= n <= i64::MAX,
                None => r == Err::<i64, ObjectError>(ObjectError::NotANumber),
            },
    {
        match self {
            Object::Any(a) => {
                let v = chars_of(a.0.as_str());
                assert(v@.subrange(0, v@.len() as int) =~= a.0@);
                match parse_number(&v, 0, v.len()) {
                    Some(n) => Ok(n),
                    None => Err(ObjectError::NotANumber),
                }
            },
            Object::Text(s) => {
                let v = chars_of(s.as_str());
                assert(v@.subrange(0, v@.len() as int) =~= s@);
                match parse_number(&v, 0, v.len()) {
                    Some(n) => Ok(n),
                    None => Err(ObjectError::NotANumber),
                }
            },
            Object::Bool(b) => Ok(
                if *b {
                    1
                } else {
                    0
                },
            ),
            Object::Number(n) => Ok(*n),
            _ => Err(ObjectError::NotANumber),
        }
    }

    /// Equality of objects: objects of different classes are never equal; within a
    /// class the values are compared, arrays item by item.
    pub fn object_eq(&self, other: &Object) -> (r: bool)
        ensures
            r == (self.view() == other.view()),
        decreases self,
    {
        match self {
            Object::Any(a) => match other {
                Object::Any(b) => a.0 == b.0,
                _ => false,
            },
            Object::Text(a) => match other {
                Object::Text(b) => *a == *b,
                _ => false,
            },
            Object::Bool(a) => match other {
                Object::Bool(b) => *a == *b,
                _ => false,
            },
            Object::Number(a) => match other {
                Object::Number(b) => *a == *b,
                _ => false,
            },
            Object::Subroutine(a) => match other {
                Object::Subroutine(b) => a.input.same_as(&b.input) && a.output.same_as(&b.output),
                _ => false,
            },
            Object::Array(a) => {
                let b = match other {
                    Object::Array(b) => b,
                    _ => {
                        return false;
                    },
                };
                let ghost va = self.view()->Array_0;
                let ghost vb = other.view()->Array_0;
                if a.len() != b.len() {
                    assert(va.len() != vb.len());
                    return false;
                }
                let mut i: usize = 0;
                while i < a.len()
                    invariant
                        self is Array && self->Array_0 == *a,
                        other is Array && other->Array_0 == *b,
                        va == self.view()->Array_0,
                        vb == other.view()->Array_0,
                        a@.len() == b@.len(),
                        i <= a@.len(),
                        forall|j: int| 0 <= j < i ==> va[j] == vb[j],
                    decreases a@.len() - i,
                {
                    proof {
                        vstd::std_specs::vec::axiom_vec_index_decreases(*a, i as int);
                        assert(decreases_to!(*self => self->Array_0));
                        assert(decreases_to!(*self => a[i as int]));
                    }
                    if !a[i].object_eq(&b[i]) {
                        assert(va[i as int] != vb[i as int]);
                        return false;
                    }
                    i = i + 1;
                }
                assert(va =~= vb);
                true
            },
        }
    }

    /// Partial order of objects; `None` where the two are incomparable.
    pub fn object_cmp(&self, other: &Object) -> (r: Option<Ordering>)
        ensures
            r == cmp_view(self.view(), other.view()),
    {
        match (self, other) {
            (Object::Number(a), Object::Number(b)) => Some(
                if *a < *b {
                    Ordering::Less
                } else if *a == *b {
                    Ordering::Equal
                } else {
                    Ordering::Greater
                },
            ),
            (Object::Bool(a), Object::Bool(b)) => Some(
                if *a == *b {
                    Ordering::Equal
                } else if !*a {
                    Ordering::Less
                } else {
                    Ordering::Greater
                },
            ),
            (Object::Text(a), Object::Text(b)) => Some(text_compare(a, b)),
            (Object::Any(a), Object::Any(b)) => Some(text_compare(&a.0, &b.0)),
            _ => None,
        }
    }

    /// Reads a field of the object.
    pub fn get_field(&self, field: &Object) -> (r: Result<Object, ObjectError>)
        ensures
            match field_view(self.view(), field.view()) {
                Ok(o) => r is Ok && r->Ok_0.view() == o,
                Err(e) => r == Err::<Object, ObjectError>(e),
            },
    {
        match self {
            Object::Array(items) => match field {
                Object::Number(i) => {
                    if 0 <= *i && (*i as u64) < (items.len() as u64) {
                        Ok(items[*i as usize].copy())
                    } else {
                        Err(ObjectError::UnknownField)
                    }
                },
                _ => {
                    let name = field.as_text();
                    proof {
                        reveal_strlit("len");
                    }
                    if text_is(&name, "len") {
                        assert("len"@ =~= len_field());
                        if (items.len() as u64) <= (i64::MAX as u64) {
                            Ok(Object::Number(items.len() as i64))
                        } else {
                            Err(ObjectError::UnknownField)
                        }
                    } else {
                        assert("len"@ =~= len_field());
                        Err(ObjectError::UnknownField)
                    }
                },
            },
            Object::Number(n) => {
                let name = field.as_text();
                if text_is(&name, "is_integer") {
                    Ok(Object::Bool(true))
                } else if text_is(&name, "as_integer") {
                    Ok(Object::Number(*n))
                } else {
                    Err(ObjectError::UnknownField)
                }
            },
            _ => Err(ObjectError::NoFields),
        }
    }

    /// Replaces an item of an array, addressed by number.
    pub fn set_field(&mut self, field: &Object, value: Object) -> (r: Result<(), ObjectError>)
        ensures
            r is Ok <==> (old(self).view() is Array && field.view() is Number && 0
                <= field.view()->Number_0 < old(self).view()->Array_0.len()),
            r is Ok ==> final(self).view() == ObjectView::Array(
                old(self).view()->Array_0.update(field.view()->Number_0, value.view()),
            ),
            r is Err ==> final(self).view() == old(self).view(),
            !(old(self).view() is Array) ==> r == Err::<(), ObjectError>(ObjectError::NoFields),
    {
        match self {
            Object::Array(items) => match field {
                Object::Number(i) => {
                    if 0 <= *i && (*i as u64) < (items.len() as u64) {
                        let ghost before = items@;
                        items.set(*i as usize, value);
                        proof {
                            let want = old(self).view()->Array_0.update(*i as int, value.view());
                            assert(self.view()->Array_0 =~= want) by {
                                assert forall|j: int| 0 <= j < want.len() implies
                                    #[trigger] self.view()->Array_0[j] == want[j] by {
                                    if j != *i as int {
                                        assert(items@[j] == before[j]);
                                    }
                                }
                            }
                        }
                        Ok(())
                    } else {
                        Err(ObjectError::UnknownField)
                    }
                },
                _ => Err(ObjectError::UnknownField),
            },
            _ => Err(ObjectError::NoFields),
        }
    }

    /// Builds an object of a class from text with the class's parser.
    pub fn from_text(parser: TextParser, s: &str) -> (r: Result<Object, ObjectError>)
        ensures
            match from_text_view(parser, s@) {
                Some(o) => r is Ok && r->Ok_0.view() == o,
                None => r == Err::<Object, ObjectError>(ObjectError::ParseFailed),
            },
    {
        match parser {
            TextParser::Any => Ok(Object::Any(AnyType(String::from_str(s)))),
            TextParser::Text => Ok(Object::Text(String::from_str(s))),
            TextParser::Bool => {
                let v = chars_of(s);
                proof {
                    reveal_strlit("true");
                    reveal_strlit("false");
                }
                assert("true"@ =~= true_text());
                assert("false"@ =~= false_text());
                if v.len() == 4 && has_prefix(&v, 0, v.len(), "true") {
                    assert(v@.subrange(0, 4) =~= v@);
                    assert(s@ =~= true_text());
                    Ok(Object::Bool(true))
                } else if v.len() == 5 && has_prefix(&v, 0, v.len(), "false") {
                    assert(v@.subrange(0, 5) =~= v@);
                    assert(s@ =~= false_text());
                    Ok(Object::Bool(false))
                } else {
                    assert(s@ != true_text() && s@ != false_text()) by {
                        if s@ == true_text() {
                            assert(v@.subrange(0, 4) =~= "true"@);
                        }
                        if s@ == false_text() {
                            assert(v@.subrange(0, 5) =~= "false"@);
                        }
                    }
                    Err(ObjectError::ParseFailed)
                }
            },
            TextParser::Number => {
                let v = chars_of(s);
                assert(v@.subrange(0, v@.len() as int) =~= s@);
                match parse_number(&v, 0, v.len()) {
                    Some(n) => Ok(Object::Number(n)),
                    None => Err(ObjectError::ParseFailed),
                }
            },
            TextParser::Array => {
                let v = chars_of(s);
                match parse_array_items(&v) {
                    Some(items) => {
                        let r = Object::Array(items);
                        proof {
                            let want = parsed_array(s@)->Some_0.map_values(
                                |x: Seq<char>| ObjectView::Any(x),
                            );
                            assert(r.view()->Array_0 =~= want);
                        }
                        Ok(r)
                    },
                    None => Err(ObjectError::ParseFailed),
                }
            },
            TextParser::Subroutine => match Subroutine::parse(s) {
                Ok(sub) => Ok(Object::Subroutine(sub)),
                Err(_) => Err(ObjectError::ParseFailed),
            },
        }
    }

    /// Casts an object to a class. Only objects of class `any` can be cast: through the
    /// target class's parser, applied to the object's text.
    pub fn cast_to(&self, parser: Option<TextParser>) -> (r: Result<Object, ObjectError>)
        ensures
            match cast_view(self.view(), parser) {
                Ok(o) => r is Ok && r->Ok_0.view() == o,
                Err(e) => r == Err::<Object, ObjectError>(e),
            },
    {
        match self {
            Object::Any(a) => match parser {
                None => Err(ObjectError::NoParser),
                Some(p) => Object::from_text(p, a.0.as_str()),
            },
            _ => Err(ObjectError::CastUnsupported),
        }
    }
}

/// The items of a bracketed, comma-separated list, as objects of class `any`.
fn parse_array_items(v: &Vec<char>) -> (r: Option<Vec<Object>>)
    ensures
        match parsed_array(v@) {
            Some(items) => r is Some && r->Some_0@.len() == items.len() && forall|i: int|
                0 <= i < items.len() ==> (#[trigger] r->Some_0@[i]).view() == ObjectView::Any(
                    items[i],
                ),
            None => r is None,
        },
{
    let n = v.len();
    if !(n >= 2 && v[0] == '[' && v[n - 1] == ']') {
        return None;
    }
    let ghost inner = v@.subrange(1, n - 1);
    let (a, b) = trim_bounds(v, 1, n - 1);
    if a == b {
        return Some(Vec::new());
    }
    let pieces = split_chars(v, 1, n - 1, ',');
    let ghost want = split_on(inner, ',').map_values(|p: Seq<char>| trim_spaces(p));
    let mut items: Vec<Object> = Vec::new();
    let mut i: usize = 0;
    while i < pieces.len()
        invariant
            i <= pieces@.len(),
            pieces.deep_view() == split_on(inner, ','),
            want == split_on(inner, ',').map_values(|p: Seq<char>| trim_spaces(p)),
            items@.len() == i,
            forall|j: int|
                0 <= j < i ==> (#[trigger] items@[j]).view() == ObjectView::Any(want[j]),
        decreases pieces@.len() - i,
    {
        let pc = chars_of(pieces[i].as_str());
        assert(pc@ == pieces.deep_view()[i as int]);
        let (x, y) = trim_bounds(&pc, 0, pc.len());
        assert(pc@.subrange(0, pc@.len() as int) =~= pc@);
        let item = string_of_range(&pc, x, y);
        items.push(Object::Any(AnyType(item)));
        i = i + 1;
    }
    Some(items)
}

/// Casting an object of class `any` to a class gives what that class's parser makes of
/// the object's text.
pub proof fn lemma_any_cast(x: Seq<char>, parser: TextParser)
    ensures
        match from_text_view(parser, text_of(ObjectView::Any(x))) {
            Some(o) => cast_view(ObjectView::Any(x), Some(parser)) == Ok::<ObjectView, ObjectError>(o),
            None => cast_view(ObjectView::Any(x), Some(parser)) is Err,
        },
{
}

/// Reading the text of a subroutine gives it back, when neither path holds a colon or a
/// dot in a part and the exit's path has no colon.
pub proof fn lemma_subroutine_round_trip(a: AbsIdView, b: AbsIdView)
    requires
        path_valid(a.0, a.1),
        path_valid(b.0, b.1),
        a.2 <= u32::MAX,
        b.2 <= u32::MAX,
        free_of(b.1, ':'),
        forall|i: int| 0 <= i < b.0.len() ==> free_of(#[trigger] b.0[i], ':'),
    ensures
        parsed_subroutine(subroutine_text(a, b)) == Ok::<
            (AbsIdView, AbsIdView),
            SubroutineParseError,
        >((a, b)),
{
    let s = subroutine_text(a, b);
    let ta = abs_id_text(a.0, a.1, a.2);
    let tb = abs_id_text(b.0, b.1, b.2);
    let n = subroutine_prefix().len();
    assert(s.subrange(0, n as int) =~= subroutine_prefix());
    let rest = s.subrange(n as int, s.len() as int);
    assert(rest =~= ta + seq![':'] + tb);
    lemma_abs_id_text_free(b.0, b.1, b.2, ':');
    lemma_last_index_append(ta, tb, ':');
    assert(rest.subrange(0, ta.len() as int) =~= ta);
    assert(rest.subrange(ta.len() + 1 as int, rest.len() as int) =~= tb);
    lemma_abs_id_round_trip(a.0, a.1, a.2);
    lemma_abs_id_round_trip(b.0, b.1, b.2);
}

} // verus!
