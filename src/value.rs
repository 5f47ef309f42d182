//! Values carried by packet fields, and their text form.
use vstd::prelude::*;
use vstd::string::*;
use crate::ClientId;
use crate::number::{decimal, is_digit, lemma_parse_decimal, parse_i128, parse_int, push_decimal};
use crate::text::{
    chars_of, join, lemma_split_join, push_char, push_str, spells, split, split_chars, string_of,
};

verus! {

/// The value of a packet field.
#[derive(Debug, Clone)]
pub enum LnPkgValue {
    String(String),
    Int(ClientId),
    Bool(bool),
    List(Vec<String>),
    Null,
}

/// What a field value is, mathematically.
pub enum ValueModel {
    Text(Seq<char>),
    Int(i128),
    Bool(bool),
    List(Seq<Seq<char>>),
    Null,
}

pub open spec fn strings_view(l: Seq<String>) -> Seq<Seq<char>> {
    l.map_values(|x: String| x@)
}

impl View for LnPkgValue {
    type V = ValueModel;

    open spec fn view(&self) -> ValueModel {
        match self {
            LnPkgValue::String(s) => ValueModel::Text(s@),
            LnPkgValue::Int(i) => ValueModel::Int(*i),
            LnPkgValue::Bool(b) => ValueModel::Bool(*b),
            LnPkgValue::List(l) => ValueModel::List(strings_view(l@)),
            LnPkgValue::Null => ValueModel::Null,
        }
    }
}

/// Text that opens with `[` and closes with `]`.
pub open spec fn is_bracketed(t: Seq<char>) -> bool {
    t.len() > 0 && t[0] == '[' && t.last() == ']'
}

/// The items of a bracketed list: the text inside the brackets split on `;`; none
/// where nothing stands between the brackets.
pub open spec fn list_items(t: Seq<char>) -> Seq<Seq<char>> {
    let inner = t.subrange(1, t.len() - 1);
    if inner.len() == 0 {
        Seq::<Seq<char>>::empty()
    } else {
        split(inner, ';')
    }
}

/// The value that a text stands for. The forms are tried in this order: an integer,
/// `true` or `false`, the empty text, a bracketed list, and any other text.
pub open spec fn decode_value(t: Seq<char>) -> ValueModel {
    if parse_i128(t) is Some {
        ValueModel::Int(parse_i128(t)->0)
    } else if t == "true"@ {
        ValueModel::Bool(true)
    } else if t == "false"@ {
        ValueModel::Bool(false)
    } else if t.len() == 0 {
        ValueModel::Null
    } else if is_bracketed(t) {
        ValueModel::List(list_items(t))
    } else {
        ValueModel::Text(t)
    }
}

/// The text of a value.
pub open spec fn encode_value(v: ValueModel) -> Seq<char> {
    match v {
        ValueModel::Text(s) => s,
        ValueModel::Int(i) => decimal(i as int),
        ValueModel::Bool(b) => if b {
            "true"@
        } else {
            "false"@
        },
        ValueModel::List(items) => seq!['['] + join(items, ';') + seq![']'],
        ValueModel::Null => Seq::<char>::empty(),
    }
}

/// A value that its text stands for unambiguously: a text that reads as no other
/// form, or a list of items without `;` other than the list of one empty item.
pub open spec fn value_representable(v: ValueModel) -> bool {
    match v {
        ValueModel::Text(s) => parse_i128(s) is None && s != "true"@ && s != "false"@ && s.len()
            > 0 && !is_bracketed(s),
        ValueModel::List(items) => items != seq![Seq::<char>::empty()] && forall|i: int|
            0 <= i < items.len() ==> !(#[trigger] items[i]).contains(';'),
        _ => true,
    }
}

pub proof fn reveal_words()
    ensures
        "true"@ == seq!['t', 'r', 'u', 'e'],
        "false"@ == seq!['f', 'a', 'l', 's', 'e'],
{
    reveal_strlit("true");
    reveal_strlit("false");
    assert("true"@ =~= seq!['t', 'r', 'u', 'e']);
    assert("false"@ =~= seq!['f', 'a', 'l', 's', 'e']);
}

/// Text whose first character is neither a sign nor a digit reads as no integer.
proof fn lemma_not_integer(t: Seq<char>)
    requires
        t.len() > 0,
        t[0] != '-' && t[0] != '+' && !is_digit(t[0]),
    ensures
        parse_i128(t) is None,
{
}

proof fn lemma_join_nonempty(items: Seq<Seq<char>>, sep: char)
    requires
        items.len() >= 1,
        items != seq![Seq::<char>::empty()],
    ensures
        join(items, sep).len() > 0,
{
    if items.len() == 1 {
        assert(items[0].len() > 0) by {
            if items[0].len() == 0 {
                assert(items[0] =~= Seq::<char>::empty());
                assert(items =~= seq![Seq::<char>::empty()]);
            }
        }
    }
}

/// Every value that its text stands for unambiguously reads back from its text.
pub proof fn lemma_value_round_trip(v: ValueModel)
    requires
        value_representable(v),
    ensures
        decode_value(encode_value(v)) == v,
{
    reveal_words();
    let t = encode_value(v);
    match v {
        ValueModel::Int(i) => {
            lemma_parse_decimal(i);
        },
        ValueModel::Bool(b) => {
            lemma_not_integer(t);
        },
        ValueModel::Null => {},
        ValueModel::List(items) => {
            lemma_not_integer(t);
            let inner = t.subrange(1, t.len() - 1);
            assert(inner =~= join(items, ';'));
            if items.len() > 0 {
                lemma_join_nonempty(items, ';');
                lemma_split_join(items, ';');
            } else {
                assert(list_items(t) =~= items);
            }
        },
        ValueModel::Text(s) => {},
    }
}

impl LnPkgValue {
    /// Reads a value from its text.
    pub fn from_string(target: String) -> (r: LnPkgValue)
        ensures
            r@ == decode_value(target@),
    {
        let c = chars_of(target.as_str());
        let n = c.len();
        assert(c@.subrange(0, n as int) =~= c@);
        if let Some(i) = parse_int(&c) {
            return LnPkgValue::Int(i);
        }
        if spells(&c, 0, n, "true") {
            LnPkgValue::Bool(true)
        } else if spells(&c, 0, n, "false") {
            LnPkgValue::Bool(false)
        } else if n == 0 {
            LnPkgValue::Null
        } else if let Some(list) = LnPkgValue::from_string_to_list(target.as_str()) {
            list
        } else {
            LnPkgValue::String(target)
        }
    }

    /// Reads a bracketed list; `None` where `target` is not bracketed.
    pub fn from_string_to_list(target: &str) -> (r: Option<LnPkgValue>)
        ensures
            r is None <==> !is_bracketed(target@),
            r is Some ==> r->0@ == ValueModel::List(list_items(target@)),
    {
        let c = chars_of(target);
        let n = c.len();
        if !(n > 0 && c[0] == '[' && c[n - 1] == ']') {
            return None;
        }
        if n - 2 == 0 {
            let empty: Vec<String> = Vec::new();
            assert(strings_view(empty@) =~= list_items(target@));
            return Some(LnPkgValue::List(empty));
        }
        let pieces = split_chars(&c, 1, n - 1, ';');
        let ghost want = split(c@.subrange(1, n - 1), ';');
        let mut items: Vec<String> = Vec::new();
        let mut j: usize = 0;
        while j < pieces.len()
            invariant
                0 <= j <= pieces.len(),
                pieces.len() == want.len(),
                forall|k: int| 0 <= k < pieces.len() ==> #[trigger] pieces[k]@ == want[k],
                items.len() == j,
                forall|k: int| 0 <= k < j ==> #[trigger] items[k]@ == want[k],
            decreases pieces.len() - j,
        {
            let piece = &pieces[j];
            let item = string_of(piece, 0, piece.len());
            assert(piece@.subrange(0, piece@.len() as int) =~= piece@);
            items.push(item);
            j = j + 1;
        }
        assert(strings_view(items@) =~= list_items(target@));
        Some(LnPkgValue::List(items))
    }

    /// Appends the text of this value to `out`.
    pub fn push_text(&self, out: &mut String)
        ensures
            final(out)@ == old(out)@ + encode_value(self@),
    {
        match self {
            LnPkgValue::String(s) => push_str(out, s.as_str()),
            LnPkgValue::Int(i) => push_decimal(*i, out),
            LnPkgValue::Bool(b) => {
                if *b {
                    push_str(out, "true");
                } else {
                    push_str(out, "false");
                }
            },
            LnPkgValue::List(l) => {
                let ghost start = out@;
                let ghost items = strings_view(l@);
                push_char(out, '[');
                let mut j: usize = 0;
                while j < l.len()
                    invariant
                        0 <= j <= l.len(),
                        items == strings_view(l@),
                        out@ == start + seq!['['] + join(items.subrange(0, j as int), ';'),
                    decreases l.len() - j,
                {
                    let ghost before = out@;
                    if j > 0 {
                        push_char(out, ';');
                    }
                    push_str(out, l[j].as_str());
                    proof {
                        let p = items.subrange(0, j + 1);
                        assert(p.drop_last() =~= items.subrange(0, j as int));
                        if j == 0 {
                            assert(join(p, ';') == p[0]);
                        }
                        assert(out@ =~= start + seq!['['] + join(p, ';'));
                    }
                    j = j + 1;
                }
                push_char(out, ']');
                assert(items.subrange(0, l.len() as int) =~= items);
                assert(out@ =~= start + encode_value(self@));
            },
            LnPkgValue::Null => {
                assert(old(out)@ + encode_value(self@) =~= old(out)@);
            },
        }
    }

    /// The text of this value.
    pub fn to_string(&self) -> (r: String)
        ensures
            r@ == encode_value(self@),
    {
        let mut r = String::new();
        self.push_text(&mut r);
        assert(r@ =~= encode_value(self@));
        r
    }
}

/// Whether two lists of strings hold the same items in the same order.
fn same_strings(a: &Vec<String>, b: &Vec<String>) -> (r: bool)
    ensures
        r == (strings_view(a@) == strings_view(b@)),
{
    if a.len() != b.len() {
        assert(strings_view(a@).len() != strings_view(b@).len());
        return false;
    }
    let mut i: usize = 0;
    while i < a.len()
        invariant
            0 <= i <= a.len(),
            a.len() == b.len(),
            forall|k: int| 0 <= k < i ==> a@[k]@ == b@[k]@,
        decreases a.len() - i,
    {
        if a[i] != b[i] {
            assert(strings_view(a@)[i as int] != strings_view(b@)[i as int]);
            return false;
        }
        i = i + 1;
    }
    assert(strings_view(a@) =~= strings_view(b@));
    true
}

impl PartialEq for LnPkgValue {
    fn eq(&self, other: &LnPkgValue) -> (r: bool) {
        match (self, other) {
            (LnPkgValue::String(a), LnPkgValue::String(b)) => *a == *b,
            (LnPkgValue::Int(a), LnPkgValue::Int(b)) => *a == *b,
            (LnPkgValue::Bool(a), LnPkgValue::Bool(b)) => *a == *b,
            (LnPkgValue::List(a), LnPkgValue::List(b)) => same_strings(a, b),
            (LnPkgValue::Null, LnPkgValue::Null) => true,
            _ => false,
        }
    }
}

impl vstd::std_specs::cmp::PartialEqSpecImpl for LnPkgValue {
    open spec fn obeys_eq_spec() -> bool {
        true
    }

    open spec fn eq_spec(&self, other: &LnPkgValue) -> bool {
        self@ == other@
    }
}

} // verus!
