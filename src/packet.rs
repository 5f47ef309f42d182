//! A packet: a kind and named fields, with its text form
//! `type=<token>:<name>=<value>:...`.
use vstd::prelude::*;
use vstd::string::*;
use crate::kind::{kind_of_token, lemma_kind_round_trip, lemma_token_plain, token_of, LnPkgType};
use crate::text::{
    chars_of, find_char, first_index, lemma_first_index, lemma_first_index_at, lemma_split_append,
    lemma_split_single, push_char, push_str, spells, split, split_chars, string_of,
};
use crate::value::{
    decode_value, encode_value, lemma_value_round_trip, value_representable, LnPkgValue, ValueModel,
};

verus! {

/// A packet: its kind and its fields, in the order in which they were first set.
/// Built by this library, the fields hold each name once and never `type`.
#[derive(Debug, Clone)]
pub struct LnPkg {
    pub content: Vec<(String, LnPkgValue)>,
    pub pkg_type: LnPkgType,
}

/// Fields as names and values.
pub open spec fn fields_view(c: Seq<(String, LnPkgValue)>) -> Seq<(Seq<char>, ValueModel)> {
    c.map_values(|p: (String, LnPkgValue)| (p.0@, p.1@))
}

impl View for LnPkg {
    type V = (LnPkgType, Seq<(Seq<char>, ValueModel)>);

    open spec fn view(&self) -> (LnPkgType, Seq<(Seq<char>, ValueModel)>) {
        (self.pkg_type, fields_view(self.content@))
    }
}

/// The reserved field name that carries the kind.
pub open spec fn type_word() -> Seq<char> {
    "type"@
}

/// Whether a field named `k` is present.
pub open spec fn has_field(f: Seq<(Seq<char>, ValueModel)>, k: Seq<char>) -> bool {
    exists|i: int| 0 <= i < f.len() && (#[trigger] f[i]).0 == k
}

/// The index of the first field named `k`, or the number of fields where there is none.
pub open spec fn key_index(f: Seq<(Seq<char>, ValueModel)>, k: Seq<char>) -> int
    decreases f.len(),
{
    if f.len() == 0 {
        0
    } else if f[0].0 == k {
        0
    } else {
        1 + key_index(f.drop_first(), k)
    }
}

/// The fields as a map from name to value; the first field of a name counts.
pub open spec fn field_map(f: Seq<(Seq<char>, ValueModel)>) -> Map<Seq<char>, ValueModel> {
    Map::new(|k: Seq<char>| has_field(f, k), |k: Seq<char>| f[key_index(f, k)].1)
}

/// Sets field `k` to `v`: in place where it is present, else as a new last field.
pub open spec fn insert_field(f: Seq<(Seq<char>, ValueModel)>, k: Seq<char>, v: ValueModel) -> Seq<
    (Seq<char>, ValueModel),
> {
    if key_index(f, k) < f.len() {
        f.update(key_index(f, k), (k, v))
    } else {
        f.push((k, v))
    }
}

/// What one segment of packet text does: nothing where it is empty; otherwise the
/// text before its first `=` names a field and the text after it (empty where there is
/// no `=`) is its value. The name `type` sets the kind from the value's token instead.
pub open spec fn apply_segment(st: (LnPkgType, Seq<(Seq<char>, ValueModel)>), seg: Seq<char>) -> (
    LnPkgType,
    Seq<(Seq<char>, ValueModel)>,
) {
    if seg.len() == 0 {
        st
    } else {
        let i = first_index(seg, '=');
        let key = seg.subrange(0, i);
        let text = if i < seg.len() {
            seg.subrange(i + 1, seg.len() as int)
        } else {
            Seq::<char>::empty()
        };
        if key == type_word() {
            (kind_of_token(text), st.1)
        } else {
            (st.0, insert_field(st.1, key, decode_value(text)))
        }
    }
}

/// The segments applied in order.
pub open spec fn apply_segments(
    st: (LnPkgType, Seq<(Seq<char>, ValueModel)>),
    segs: Seq<Seq<char>>,
) -> (LnPkgType, Seq<(Seq<char>, ValueModel)>)
    decreases segs.len(),
{
    if segs.len() == 0 {
        st
    } else {
        apply_segment(apply_segments(st, segs.drop_last()), segs.last())
    }
}

/// The packet that a text stands for: its `:`-separated segments applied in order to a
/// packet of kind `Unknown` with no fields.
pub open spec fn decode_packet(t: Seq<char>) -> (LnPkgType, Seq<(Seq<char>, ValueModel)>) {
    apply_segments((LnPkgType::Unknown, Seq::empty()), split(t, ':'))
}

/// `name=text`.
pub open spec fn encode_field(k: Seq<char>, text: Seq<char>) -> Seq<char> {
    k + seq!['='] + text
}

/// Each field as `name=value:`, in order.
pub open spec fn encode_fields(f: Seq<(Seq<char>, ValueModel)>) -> Seq<char>
    decreases f.len(),
{
    if f.len() == 0 {
        Seq::<char>::empty()
    } else {
        encode_fields(f.drop_last()) + encode_field(f.last().0, encode_value(f.last().1)) + seq![
            ':',
        ]
    }
}

/// `type=<token>:` unless the kind is `Unknown`.
pub open spec fn encode_header(k: LnPkgType) -> Seq<char> {
    if k != LnPkgType::Unknown {
        encode_field(type_word(), token_of(k)) + seq![':']
    } else {
        Seq::<char>::empty()
    }
}

/// The text of a packet.
pub open spec fn encode_packet(p: (LnPkgType, Seq<(Seq<char>, ValueModel)>)) -> Seq<char> {
    encode_header(p.0) + encode_fields(p.1)
}

/// The packet that a kind and a list of entries build: an entry named `type` sets the
/// kind (from a text value's token; `Unknown` from any other value); each other entry
/// sets its field.
pub open spec fn absorb_entries(
    st: (LnPkgType, Seq<(Seq<char>, ValueModel)>),
    entries: Seq<(Seq<char>, ValueModel)>,
) -> (LnPkgType, Seq<(Seq<char>, ValueModel)>)
    decreases entries.len(),
{
    if entries.len() == 0 {
        st
    } else {
        let before = absorb_entries(st, entries.drop_last());
        let (k, v) = entries.last();
        if k == type_word() {
            (
                match v {
                    ValueModel::Text(t) => kind_of_token(t),
                    _ => LnPkgType::Unknown,
                },
                before.1,
            )
        } else {
            (before.0, insert_field(before.1, k, v))
        }
    }
}

/// What `key_index` means: no earlier field of that name, and one there unless it is
/// the end.
pub proof fn lemma_key_index(f: Seq<(Seq<char>, ValueModel)>, k: Seq<char>)
    ensures
        0 <= key_index(f, k) <= f.len(),
        forall|j: int| 0 <= j < key_index(f, k) ==> f[j].0 != k,
        key_index(f, k) < f.len() ==> f[key_index(f, k)].0 == k,
        has_field(f, k) <==> key_index(f, k) < f.len(),
    decreases f.len(),
{
    if f.len() > 0 && f[0].0 != k {
        lemma_key_index(f.drop_first(), k);
        assert forall|j: int| 0 <= j < key_index(f, k) implies f[j].0 != k by {
            if j > 0 {
                assert(f[j] == f.drop_first()[j - 1]);
            }
        }
        if has_field(f, k) {
            let i = choose|i: int| 0 <= i < f.len() && (#[trigger] f[i]).0 == k;
            assert(f.drop_first()[i - 1] == f[i]);
        }
        if key_index(f, k) < f.len() {
            assert(f[key_index(f, k)] == f.drop_first()[key_index(f, k) - 1]);
        }
    }
}

proof fn lemma_key_index_at(f: Seq<(Seq<char>, ValueModel)>, k: Seq<char>, i: int)
    requires
        0 <= i <= f.len(),
        forall|j: int| 0 <= j < i ==> f[j].0 != k,
        i < f.len() ==> f[i].0 == k,
    ensures
        key_index(f, k) == i,
    decreases f.len(),
{
    if f.len() > 0 && i > 0 {
        assert(f[0].0 != k);
        assert forall|j: int| 0 <= j < i - 1 implies f.drop_first()[j].0 != k by {
            assert(f.drop_first()[j] == f[j + 1]);
        }
        if i < f.len() {
            assert(f.drop_first()[i - 1] == f[i]);
        }
        lemma_key_index_at(f.drop_first(), k, i - 1);
    }
}

/// Index of the first entry named `key`; `content.len()` where there is none.
fn position(content: &Vec<(String, LnPkgValue)>, key: &String) -> (r: usize)
    ensures
        r == key_index(fields_view(content@), key@),
{
    let ghost f = fields_view(content@);
    let mut i: usize = 0;
    while i < content.len()
        invariant
            0 <= i <= content.len(),
            f == fields_view(content@),
            forall|j: int| 0 <= j < i ==> f[j].0 != key@,
        decreases content.len() - i,
    {
        if content[i].0 == *key {
            proof {
                lemma_key_index_at(f, key@, i as int);
            }
            return i;
        }
        i = i + 1;
    }
    proof {
        lemma_key_index_at(f, key@, i as int);
    }
    i
}

/// Sets field `key` to `value`, in place where it is present, else at the end.
fn set_field(content: &mut Vec<(String, LnPkgValue)>, key: String, value: LnPkgValue)
    ensures
        fields_view(final(content)@) == insert_field(fields_view(old(content)@), key@, value@),
{
    let i = position(content, &key);
    let ghost before = fields_view(content@);
    if i < content.len() {
        content[i] = (key, value);
        assert(fields_view(content@) =~= before.update(i as int, (key@, value@)));
    } else {
        content.push((key, value));
        assert(fields_view(content@) =~= before.push((key@, value@)));
    }
}

impl LnPkg {
    /// Each field name once, and never `type`.
    pub open spec fn wf(&self) -> bool {
        fields_wf(self@.1)
    }

    /// A packet of kind `pkg_type` with no fields.
    pub fn new(pkg_type: LnPkgType) -> (r: LnPkg)
        ensures
            r@ == (pkg_type, Seq::<(Seq<char>, ValueModel)>::empty()),
            r.wf(),
    {
        let r = LnPkg { content: Vec::new(), pkg_type };
        assert(fields_view(r.content@) =~= Seq::<(Seq<char>, ValueModel)>::empty());
        r
    }

    /// Reads a packet from its text.
    pub fn from_string(pkg: &str) -> (r: LnPkg)
        ensures
            r@ == decode_packet(pkg@),
            r.wf(),
    {
        proof {
            lemma_decode_reserves_type(pkg@);
        }
        let c = chars_of(pkg);
        let n = c.len();
        let segs = split_chars(&c, 0, n, ':');
        let ghost want = split(c@.subrange(0, n as int), ':');
        assert(c@.subrange(0, n as int) =~= pkg@);
        let mut pkg_type = LnPkgType::Unknown;
        let mut content: Vec<(String, LnPkgValue)> = Vec::new();
        assert(fields_view(content@) =~= Seq::<(Seq<char>, ValueModel)>::empty());
        let mut j: usize = 0;
        while j < segs.len()
            invariant
                0 <= j <= segs.len(),
                segs.len() == want.len(),
                want == split(pkg@, ':'),
                forall|k: int| 0 <= k < segs.len() ==> #[trigger] segs[k]@ == want[k],
                (pkg_type, fields_view(content@)) == apply_segments(
                    (LnPkgType::Unknown, Seq::empty()),
                    want.subrange(0, j as int),
                ),
            decreases segs.len() - j,
        {
            let seg = &segs[j];
            let len = seg.len();
            let ghost st = (pkg_type, fields_view(content@));
            proof {
                assert(want.subrange(0, j + 1).drop_last() =~= want.subrange(0, j as int));
                assert(want.subrange(0, j + 1).last() == seg@);
                assert(seg@.subrange(0, len as int) =~= seg@);
            }
            if len > 0 {
                let i = find_char(seg, 0, len, '=');
                proof {
                    lemma_first_index(seg@, '=');
                }
                let key = string_of(seg, 0, i);
                let text = if i < len {
                    string_of(seg, i + 1, len)
                } else {
                    String::new()
                };
                if spells(seg, 0, i, "type") {
                    pkg_type = LnPkgType::from_string(text);
                } else {
                    let value = LnPkgValue::from_string(text);
                    set_field(&mut content, key, value);
                }
            }
            j = j + 1;
        }
        assert(want.subrange(0, want.len() as int) =~= want);
        LnPkg { content, pkg_type }
    }

    /// Builds a packet of kind `pkg_type` from entries, in order: an entry named `type`
    /// sets the kind instead of a field.
    pub fn from_hashmap(target: Vec<(String, LnPkgValue)>, pkg_type: LnPkgType) -> (r: LnPkg)
        ensures
            r@ == absorb_entries((pkg_type, Seq::empty()), fields_view(target@)),
            r.wf(),
    {
        proof {
            lemma_build_reserves_type(pkg_type, fields_view(target@));
        }
        let ghost entries = fields_view(target@);
        let mut kind = pkg_type;
        let mut content: Vec<(String, LnPkgValue)> = Vec::new();
        assert(fields_view(content@) =~= Seq::<(Seq<char>, ValueModel)>::empty());
        for entry in it: target
            invariant
                entries == fields_view(it.seq()),
                (kind, fields_view(content@)) == absorb_entries(
                    (pkg_type, Seq::empty()),
                    entries.subrange(0, it.index() as int),
                ),
        {
            let ghost j = it.index();
            proof {
                assert(entries.subrange(0, j + 1).drop_last() =~= entries.subrange(0, j as int));
                assert(entries.subrange(0, j + 1).last() == entries[j as int]);
            }
            let (key, value) = entry;
            let k = chars_of(key.as_str());
            let kn = k.len();
            if spells(&k, 0, kn, "type") {
                proof {
                    assert(k@.subrange(0, kn as int) =~= key@);
                }
                kind = match value {
                    LnPkgValue::String(t) => LnPkgType::from_string(t),
                    _ => LnPkgType::Unknown,
                };
            } else {
                proof {
                    assert(k@.subrange(0, kn as int) =~= key@);
                }
                set_field(&mut content, key, value);
            }
        }
        assert(entries.subrange(0, entries.len() as int) =~= entries);
        LnPkg { content, pkg_type: kind }
    }

    /// Appends the text of this packet to `out`.
    pub fn push_text(&self, out: &mut String)
        ensures
            final(out)@ == old(out)@ + encode_packet(self@),
    {
        let ghost start = out@;
        if self.pkg_type != LnPkgType::Unknown {
            push_str(out, "type");
            push_char(out, '=');
            self.pkg_type.push_token(out);
            push_char(out, ':');
        }
        assert(out@ =~= start + encode_header(self.pkg_type));
        let ghost f = fields_view(self.content@);
        let mut j: usize = 0;
        while j < self.content.len()
            invariant
                0 <= j <= self.content.len(),
                f == fields_view(self.content@),
                out@ == start + encode_header(self.pkg_type) + encode_fields(
                    f.subrange(0, j as int),
                ),
            decreases self.content.len() - j,
        {
            let (k, v) = &self.content[j];
            push_str(out, k.as_str());
            push_char(out, '=');
            v.push_text(out);
            push_char(out, ':');
            proof {
                let p = f.subrange(0, j + 1);
                assert(p.drop_last() =~= f.subrange(0, j as int));
                assert(p.last() == f[j as int]);
                assert(out@ =~= start + encode_header(self.pkg_type) + encode_fields(p));
            }
            j = j + 1;
        }
        assert(f.subrange(0, self.content.len() as int) =~= f);
        assert(out@ =~= old(out)@ + encode_packet(self@));
    }

    /// The text of this packet: `type=<token>:` unless the kind is `Unknown`, then
    /// `name=value:` for each field in order.
    pub fn to_string(&self) -> (r: String)
        ensures
            r@ == encode_packet(self@),
    {
        let mut r = String::new();
        self.push_text(&mut r);
        assert(r@ =~= encode_packet(self@));
        r
    }

    /// The text of this packet as UTF-8 bytes.
    pub fn as_bytes(&self) -> (r: Vec<u8>)
        ensures
            r@ == vstd::utf8::encode_utf8(encode_packet(self@)),
    {
        let s = self.to_string();
        s.as_str().as_bytes_vec()
    }

    /// Whether a field of each of the names in `keys` is present.
    pub fn exist(&self, keys: &[&str]) -> (r: bool)
        ensures
            r == forall|i: int| 0 <= i < keys@.len() ==> has_field(self@.1, #[trigger] keys@[i]@),
    {
        let mut i: usize = 0;
        while i < keys.len()
            invariant
                0 <= i <= keys.len(),
                forall|j: int| 0 <= j < i ==> has_field(self@.1, #[trigger] keys@[j]@),
            decreases keys.len() - i,
        {
            let key = keys[i].to_owned();
            let at = position(&self.content, &key);
            proof {
                lemma_key_index(self@.1, key@);
            }
            if at == self.content.len() {
                return false;
            }
            i = i + 1;
        }
        true
    }
}

/// Whether every name of `a` is a name of `b` with the same value, taking the first
/// field of each name.
fn fields_within(a: &Vec<(String, LnPkgValue)>, b: &Vec<(String, LnPkgValue)>) -> (r: bool)
    ensures
        r == (forall|k: Seq<char>|
            #[trigger] has_field(fields_view(a@), k) ==> has_field(fields_view(b@), k)
                && field_map(fields_view(a@))[k] == field_map(fields_view(b@))[k]),
{
    let ghost fa = fields_view(a@);
    let ghost fb = fields_view(b@);
    let mut i: usize = 0;
    while i < a.len()
        invariant
            0 <= i <= a.len(),
            fa == fields_view(a@),
            fb == fields_view(b@),
            forall|j: int|
                0 <= j < i ==> has_field(fb, #[trigger] fa[j].0) && field_map(fa)[fa[j].0]
                    == field_map(fb)[fa[j].0],
        decreases a.len() - i,
    {
        let key = &a[i].0;
        let x = position(a, key);
        let y = position(b, key);
        proof {
            lemma_key_index(fa, key@);
            lemma_key_index(fb, key@);
            assert(fa[i as int].0 == key@);
        }
        if y == b.len() {
            return false;
        }
        if a[x].1 != b[y].1 {
            return false;
        }
        i = i + 1;
    }
    proof {
        assert forall|k: Seq<char>| #[trigger] has_field(fa, k) implies has_field(fb, k)
            && field_map(fa)[k] == field_map(fb)[k] by {
            let j = choose|j: int| 0 <= j < fa.len() && (#[trigger] fa[j]).0 == k;
        }
    }
    true
}

impl PartialEq for LnPkg {
    /// Same kind, and the same value under each name; the order of fields does not count.
    fn eq(&self, other: &LnPkg) -> (r: bool) {
        if self.pkg_type != other.pkg_type {
            return false;
        }
        let r = fields_within(&self.content, &other.content) && fields_within(
            &other.content,
            &self.content,
        );
        proof {
            let fa = fields_view(self.content@);
            let fb = fields_view(other.content@);
            if r {
                assert(field_map(fa) =~= field_map(fb));
            } else if field_map(fa) == field_map(fb) {
                assert forall|k: Seq<char>| #[trigger] has_field(fa, k) implies has_field(fb, k)
                    && field_map(fa)[k] == field_map(fb)[k] by {
                    assert(field_map(fa).dom().contains(k));
                }
                assert forall|k: Seq<char>| #[trigger] has_field(fb, k) implies has_field(fa, k)
                    && field_map(fb)[k] == field_map(fa)[k] by {
                    assert(field_map(fb).dom().contains(k));
                }
            }
        }
        r
    }
}

impl vstd::std_specs::cmp::PartialEqSpecImpl for LnPkg {
    open spec fn obeys_eq_spec() -> bool {
        true
    }

    open spec fn eq_spec(&self, other: &LnPkg) -> bool {
        self.pkg_type == other.pkg_type && field_map(fields_view(self.content@)) == field_map(
            fields_view(other.content@),
        )
    }
}

/// Each name once, and never `type`.
pub open spec fn fields_wf(f: Seq<(Seq<char>, ValueModel)>) -> bool {
    &&& forall|i: int, j: int| 0 <= i < j < f.len() ==> (#[trigger] f[i]).0 != (#[trigger] f[j]).0
    &&& !has_field(f, type_word())
}

/// Setting a field other than `type` keeps each name once and `type` out.
proof fn lemma_insert_field_wf(f: Seq<(Seq<char>, ValueModel)>, k: Seq<char>, v: ValueModel)
    requires
        fields_wf(f),
        k != type_word(),
    ensures
        fields_wf(insert_field(f, k, v)),
{
    let g = insert_field(f, k, v);
    lemma_key_index(f, k);
    let ki = key_index(f, k);
    assert forall|i: int| 0 <= i < g.len() implies (#[trigger] g[i]).0 == (if i < f.len() {
        f[i].0
    } else {
        k
    }) by {
        if i < f.len() && i != ki {
            assert(g[i] == f[i]);
        }
    }
    assert forall|i: int, j: int| 0 <= i < j < g.len() implies (#[trigger] g[i]).0 != (
    #[trigger] g[j]).0 by {
        if j == f.len() {
            assert(f[i].0 != k);
        } else {
            assert(f[i].0 != f[j].0);
        }
    }
    if has_field(g, type_word()) {
        let i = choose|i: int| 0 <= i < g.len() && (#[trigger] g[i]).0 == type_word();
        assert(f[i].0 == type_word());
    }
}

proof fn lemma_segments_wf(st: (LnPkgType, Seq<(Seq<char>, ValueModel)>), segs: Seq<Seq<char>>)
    requires
        fields_wf(st.1),
    ensures
        fields_wf(apply_segments(st, segs).1),
    decreases segs.len(),
{
    if segs.len() > 0 {
        lemma_segments_wf(st, segs.drop_last());
        let before = apply_segments(st, segs.drop_last());
        let seg = segs.last();
        if seg.len() > 0 {
            let i = first_index(seg, '=');
            lemma_first_index(seg, '=');
            let text = if i < seg.len() {
                seg.subrange(i + 1, seg.len() as int)
            } else {
                Seq::<char>::empty()
            };
            if seg.subrange(0, i) != type_word() {
                lemma_insert_field_wf(before.1, seg.subrange(0, i), decode_value(text));
            }
        }
    }
}

proof fn lemma_absorb_wf(
    st: (LnPkgType, Seq<(Seq<char>, ValueModel)>),
    entries: Seq<(Seq<char>, ValueModel)>,
)
    requires
        fields_wf(st.1),
    ensures
        fields_wf(absorb_entries(st, entries).1),
    decreases entries.len(),
{
    if entries.len() > 0 {
        lemma_absorb_wf(st, entries.drop_last());
        let before = absorb_entries(st, entries.drop_last());
        if entries.last().0 != type_word() {
            lemma_insert_field_wf(before.1, entries.last().0, entries.last().1);
        }
    }
}

/// No text reads as a packet with a field named `type`, nor with two fields of one name:
/// `type` sets the kind, and a name set again keeps its place.
pub proof fn lemma_decode_reserves_type(t: Seq<char>)
    ensures
        fields_wf(decode_packet(t).1),
        !has_field(decode_packet(t).1, type_word()),
{
    lemma_segments_wf((LnPkgType::Unknown, Seq::empty()), split(t, ':'));
}

/// Entries named `type` never become fields: the last one sets the kind.
pub proof fn lemma_build_reserves_type(kind: LnPkgType, entries: Seq<(Seq<char>, ValueModel)>)
    ensures
        fields_wf(absorb_entries((kind, Seq::empty()), entries).1),
        !has_field(absorb_entries((kind, Seq::empty()), entries).1, type_word()),
        entries.len() > 0 && entries.last().0 == type_word() ==> absorb_entries(
            (kind, Seq::empty()),
            entries,
        ).0 == match entries.last().1 {
            ValueModel::Text(t) => kind_of_token(t),
            _ => LnPkgType::Unknown,
        },
{
    lemma_absorb_wf((kind, Seq::empty()), entries);
}

/// A field that its text stands for unambiguously inside a packet: the name is not
/// `type` and holds neither `:` nor `=`, and the value is unambiguous and its text holds
/// no `:`.
pub open spec fn field_representable(k: Seq<char>, v: ValueModel) -> bool {
    &&& k != type_word()
    &&& !k.contains(':')
    &&& !k.contains('=')
    &&& value_representable(v)
    &&& !encode_value(v).contains(':')
}

/// Fields that their text stands for unambiguously: each name once, each field
/// unambiguous.
pub open spec fn fields_representable(f: Seq<(Seq<char>, ValueModel)>) -> bool {
    &&& forall|i: int, j: int| 0 <= i < j < f.len() ==> (#[trigger] f[i]).0 != (#[trigger] f[j]).0
    &&& forall|i: int| 0 <= i < f.len() ==> field_representable((#[trigger] f[i]).0, f[i].1)
}

/// A packet that its text stands for unambiguously.
pub open spec fn packet_representable(p: (LnPkgType, Seq<(Seq<char>, ValueModel)>)) -> bool {
    fields_representable(p.1)
}

/// The segments that the fields are written as.
pub open spec fn field_segments(f: Seq<(Seq<char>, ValueModel)>) -> Seq<Seq<char>> {
    f.map_values(|kv: (Seq<char>, ValueModel)| encode_field(kv.0, encode_value(kv.1)))
}

proof fn lemma_no_colon_concat(a: Seq<char>, b: Seq<char>)
    requires
        !a.contains(':'),
        !b.contains(':'),
    ensures
        !(a + b).contains(':'),
{
    if (a + b).contains(':') {
        let i = choose|i: int| 0 <= i < (a + b).len() && (a + b)[i] == ':';
        if i < a.len() {
            assert(a[i] == ':');
        } else {
            assert(b[i - a.len()] == ':');
        }
    }
}

proof fn lemma_split_fields(f: Seq<(Seq<char>, ValueModel)>)
    requires
        forall|i: int| 0 <= i < f.len() ==> !(#[trigger] f[i]).0.contains(':') && !encode_value(
            f[i].1,
        ).contains(':'),
    ensures
        split(encode_fields(f), ':') == field_segments(f).push(Seq::<char>::empty()),
        encode_fields(f).len() == 0 || encode_fields(f).last() == ':',
    decreases f.len(),
{
    if f.len() == 0 {
        assert(field_segments(f) =~= Seq::<Seq<char>>::empty());
        assert(split(Seq::<char>::empty(), ':') =~= seq![Seq::<char>::empty()]);
    } else {
        let g = f.drop_last();
        assert forall|i: int| 0 <= i < g.len() implies !(#[trigger] g[i]).0.contains(':')
            && !encode_value(g[i].1).contains(':') by {
            assert(g[i] == f[i]);
        }
        lemma_split_fields(g);
        let kv = f.last();
        assert(kv == f[f.len() - 1]);
        let seg = encode_field(kv.0, encode_value(kv.1));
        lemma_no_colon_concat(kv.0, seq!['=']);
        lemma_no_colon_concat(kv.0 + seq!['='], encode_value(kv.1));
        let tail = seg + seq![':'];
        lemma_split_append(encode_fields(g), tail, ':');
        assert(tail.drop_last() =~= seg);
        lemma_split_single(seg, ':');
        assert(split(tail, ':') =~= seq![seg, Seq::<char>::empty()]);
        assert(encode_fields(f) =~= encode_fields(g) + tail);
        assert(field_segments(g).push(Seq::<char>::empty()).drop_last() =~= field_segments(g));
        assert(field_segments(f) =~= field_segments(g).push(seg));
        assert(split(encode_fields(f), ':') =~= field_segments(f).push(Seq::<char>::empty()));
    }
}

proof fn lemma_apply_segments_append(
    st: (LnPkgType, Seq<(Seq<char>, ValueModel)>),
    a: Seq<Seq<char>>,
    b: Seq<Seq<char>>,
)
    ensures
        apply_segments(st, a + b) == apply_segments(apply_segments(st, a), b),
    decreases b.len(),
{
    if b.len() == 0 {
        assert(a + b =~= a);
    } else {
        lemma_apply_segments_append(st, a, b.drop_last());
        assert((a + b).drop_last() =~= a + b.drop_last());
        assert((a + b).last() == b.last());
    }
}

/// Reading the segment `name=text` where the name holds no `=`.
proof fn lemma_read_field(k: Seq<char>, text: Seq<char>)
    requires
        !k.contains('='),
    ensures
        first_index(encode_field(k, text), '=') == k.len(),
        encode_field(k, text).subrange(0, k.len() as int) == k,
        encode_field(k, text).subrange(k.len() as int + 1, encode_field(k, text).len() as int) == text,
{
    let seg = encode_field(k, text);
    assert forall|j: int| 0 <= j < k.len() implies seg[j] != '=' by {
        assert(seg[j] == k[j]);
    }
    lemma_first_index_at(seg, '=', k.len() as int);
    assert(seg.subrange(0, k.len() as int) =~= k);
    assert(seg.subrange(k.len() as int + 1, seg.len() as int) =~= text);
}

proof fn lemma_apply_field_segments(kind: LnPkgType, f: Seq<(Seq<char>, ValueModel)>)
    requires
        fields_representable(f),
    ensures
        apply_segments((kind, Seq::empty()), field_segments(f)) == (kind, f),
    decreases f.len(),
{
    if f.len() == 0 {
        assert(field_segments(f) =~= Seq::<Seq<char>>::empty());
        assert(f =~= Seq::<(Seq<char>, ValueModel)>::empty());
    } else {
        let g = f.drop_last();
        assert forall|i: int, j: int| 0 <= i < j < g.len() implies (#[trigger] g[i]).0 != (
        #[trigger] g[j]).0 by {
            assert(g[i] == f[i] && g[j] == f[j]);
        }
        assert forall|i: int| 0 <= i < g.len() implies field_representable(
            (#[trigger] g[i]).0,
            g[i].1,
        ) by {
            assert(g[i] == f[i]);
        }
        lemma_apply_field_segments(kind, g);
        let kv = f.last();
        assert(kv == f[f.len() - 1]);
        assert(field_representable(kv.0, kv.1));
        assert(field_segments(f).drop_last() =~= field_segments(g));
        let seg = encode_field(kv.0, encode_value(kv.1));
        assert(field_segments(f).last() == seg);
        lemma_read_field(kv.0, encode_value(kv.1));
        lemma_value_round_trip(kv.1);
        assert forall|j: int| 0 <= j < g.len() implies g[j].0 != kv.0 by {
            assert(g[j] == f[j]);
        }
        lemma_key_index_at(g, kv.0, g.len() as int);
        assert(g.push(kv) =~= f);
    }
}

/// Reading the text of a packet gives the packet back, fields in the same order, for
/// every packet that its text stands for unambiguously.
pub proof fn lemma_packet_round_trip(p: (LnPkgType, Seq<(Seq<char>, ValueModel)>))
    requires
        packet_representable(p),
    ensures
        decode_packet(encode_packet(p)) == p,
{
    let kind = p.0;
    let f = p.1;
    assert forall|i: int| 0 <= i < f.len() implies !(#[trigger] f[i]).0.contains(':')
        && !encode_value(f[i].1).contains(':') by {
        assert(field_representable(f[i].0, f[i].1));
    }
    lemma_split_fields(f);
    let h = encode_header(kind);
    let init = (LnPkgType::Unknown, Seq::<(Seq<char>, ValueModel)>::empty());
    lemma_split_append(h, encode_fields(f), ':');
    lemma_apply_segments_append(init, split(h, ':').drop_last(), field_segments(f).push(
        Seq::<char>::empty(),
    ));
    lemma_apply_segments_append(
        apply_segments(init, split(h, ':').drop_last()),
        field_segments(f),
        seq![Seq::<char>::empty()],
    );
    assert(field_segments(f).push(Seq::<char>::empty()) =~= field_segments(f) + seq![
        Seq::<char>::empty(),
    ]);
    assert(split(h, ':').drop_last() + field_segments(f).push(Seq::<char>::empty())
        =~= split(h, ':').drop_last() + (field_segments(f) + seq![Seq::<char>::empty()]));
    if kind != LnPkgType::Unknown {
        reveal_strlit("type");
        lemma_token_plain(kind);
        lemma_kind_round_trip(kind);
        let hs = encode_field(type_word(), token_of(kind));
        assert(type_word() =~= seq!['t', 'y', 'p', 'e']);
        assert forall|i: int| 0 <= i < type_word().len() implies type_word()[i] != '='
            && type_word()[i] != ':' by {}
        assert(!type_word().contains('='));
        assert(!type_word().contains(':'));
        lemma_no_colon_concat(type_word(), seq!['=']);
        lemma_no_colon_concat(type_word() + seq!['='], token_of(kind));
        assert(h.drop_last() =~= hs);
        lemma_split_single(hs, ':');
        assert(split(h, ':').drop_last() =~= seq![hs]);
        lemma_read_field(type_word(), token_of(kind));
        assert(seq![hs].drop_last() =~= Seq::<Seq<char>>::empty());
        assert(apply_segments(init, Seq::<Seq<char>>::empty()) == init);
        assert(seq![hs].last() == hs);
        assert(apply_segments(init, seq![hs]) == apply_segment(init, hs));
        assert(hs.subrange(0, 4) == type_word());
        assert(apply_segments(init, seq![hs]) == (kind, Seq::<(Seq<char>, ValueModel)>::empty()));
    } else {
        assert(split(h, ':').drop_last() =~= Seq::<Seq<char>>::empty());
    }
    let hdr = split(h, ':').drop_last();
    let segs = field_segments(f);
    let e = seq![Seq::<char>::empty()];
    assert(apply_segments(init, hdr) == (kind, Seq::<(Seq<char>, ValueModel)>::empty()));
    lemma_apply_field_segments(kind, f);
    assert(e.drop_last() =~= Seq::<Seq<char>>::empty());
    assert(e.last() == Seq::<char>::empty());
    assert(apply_segments((kind, f), Seq::<Seq<char>>::empty()) == (kind, f));
    assert(apply_segments((kind, f), e) == (kind, f));
    assert(encode_packet(p) =~= h + encode_fields(f));
    assert(split(encode_packet(p), ':') == hdr + (segs + e));
    assert(decode_packet(encode_packet(p)) == apply_segments(init, hdr + (segs + e)));
}

/// The value of the field named `k` (the first such field).
pub open spec fn field_value(f: Seq<(Seq<char>, ValueModel)>, k: Seq<char>) -> ValueModel {
    f[key_index(f, k)].1
}

/// A field entry: a name and its value.
pub fn entry(name: &str, value: LnPkgValue) -> (r: (String, LnPkgValue))
    ensures
        r.0@ == name@,
        r.1 == value,
{
    (name.to_owned(), value)
}

impl LnPkg {
    /// The value of the field named `key`, if there is one.
    pub fn get(&self, key: &str) -> (r: Option<&LnPkgValue>)
        ensures
            r is Some <==> has_field(self@.1, key@),
            r is Some ==> r->0@ == field_value(self@.1, key@),
    {
        let k = key.to_owned();
        let i = position(&self.content, &k);
        proof {
            lemma_key_index(self@.1, key@);
        }
        if i < self.content.len() {
            Some(&self.content[i].1)
        } else {
            None
        }
    }
}

} // verus!
