use vstd::prelude::*;
use crate::component::{Component, ComponentView, Field};
use crate::entity::Entity;
use crate::snapshot::{EntityRecord, RecordView, Snapshot};

verus! {

/// The eight little-endian bytes of `x`.
pub open spec fn le64(x: u64) -> Seq<u8> {
    seq![
        x as u8,
        (x >> 8u64) as u8,
        (x >> 16u64) as u8,
        (x >> 24u64) as u8,
        (x >> 32u64) as u8,
        (x >> 40u64) as u8,
        (x >> 48u64) as u8,
        (x >> 56u64) as u8,
    ]
}

/// Distinct numbers have distinct encodings.
pub proof fn lemma_le64_injective(x: u64, y: u64)
    requires
        le64(x) == le64(y),
    ensures
        x == y,
{
    assert(le64(x)[0] == le64(y)[0]);
    assert(le64(x)[1] == le64(y)[1]);
    assert(le64(x)[2] == le64(y)[2]);
    assert(le64(x)[3] == le64(y)[3]);
    assert(le64(x)[4] == le64(y)[4]);
    assert(le64(x)[5] == le64(y)[5]);
    assert(le64(x)[6] == le64(y)[6]);
    assert(le64(x)[7] == le64(y)[7]);
    assert(x == y) by (bit_vector)
        requires
            x as u8 == y as u8,
            (x >> 8u64) as u8 == (y >> 8u64) as u8,
            (x >> 16u64) as u8 == (y >> 16u64) as u8,
            (x >> 24u64) as u8 == (y >> 24u64) as u8,
            (x >> 32u64) as u8 == (y >> 32u64) as u8,
            (x >> 40u64) as u8 == (y >> 40u64) as u8,
            (x >> 48u64) as u8 == (y >> 48u64) as u8,
            (x >> 56u64) as u8 == (y >> 56u64) as u8,
    ;
}

/// Appends the encoding of `x` to `out`.
pub fn write_u64(out: &mut Vec<u8>, x: u64)
    ensures
        final(out)@ == old(out)@ + le64(x),
{
    out.push(x as u8);
    out.push((x >> 8u64) as u8);
    out.push((x >> 16u64) as u8);
    out.push((x >> 24u64) as u8);
    out.push((x >> 32u64) as u8);
    out.push((x >> 40u64) as u8);
    out.push((x >> 48u64) as u8);
    out.push((x >> 56u64) as u8);
    assert(out@ =~= old(out)@ + le64(x));
}

/// Reads the number encoded at `pos`, if eight bytes are there.
pub fn read_u64(b: &Vec<u8>, pos: usize) -> (r: Option<u64>)
    ensures
        match r {
            Some(x) => pos + 8 <= b@.len() && b@.subrange(pos as int, pos + 8) == le64(x),
            None => pos + 8 > b@.len(),
        },
{
    if pos > b.len() || b.len() - pos < 8 {
        return None;
    }
    let b0 = b[pos];
    let b1 = b[pos + 1];
    let b2 = b[pos + 2];
    let b3 = b[pos + 3];
    let b4 = b[pos + 4];
    let b5 = b[pos + 5];
    let b6 = b[pos + 6];
    let b7 = b[pos + 7];
    let x: u64 = (b0 as u64) | ((b1 as u64) << 8u64) | ((b2 as u64) << 16u64) | ((b3 as u64) << 24u64)
        | ((b4 as u64) << 32u64) | ((b5 as u64) << 40u64) | ((b6 as u64) << 48u64) | ((b7 as u64) << 56u64);
    assert(x as u8 == b0 && (x >> 8u64) as u8 == b1 && (x >> 16u64) as u8 == b2 && (x >> 24u64) as u8 == b3
        && (x >> 32u64) as u8 == b4 && (x >> 40u64) as u8 == b5 && (x >> 48u64) as u8 == b6 && (x >> 56u64) as u8
        == b7) by (bit_vector)
        requires
            x == (b0 as u64) | ((b1 as u64) << 8u64) | ((b2 as u64) << 16u64) | ((b3 as u64) << 24u64) | ((b4 as u64)
                << 32u64) | ((b5 as u64) << 40u64) | ((b6 as u64) << 48u64) | ((b7 as u64) << 56u64),
    ;
    assert(b@.subrange(pos as int, pos + 8) =~= le64(x));
    Some(x)
}

/// The bytes of each element of `s` under `f`, one after the other.
pub open spec fn concat_map<A>(s: Seq<A>, f: spec_fn(A) -> Seq<u8>) -> Seq<u8>
    decreases s.len(),
{
    if s.len() == 0 {
        Seq::empty()
    } else {
        concat_map(s.drop_last(), f) + f(s.last())
    }
}

/// `e` stands in `b` from position `pos` on.
pub open spec fn encoded_at(b: Seq<u8>, pos: int, e: Seq<u8>) -> bool {
    &&& 0 <= pos
    &&& pos + e.len() <= b.len()
    &&& b.subrange(pos, pos + e.len()) == e
}

/// Two encodings stand one after the other exactly when their concatenation stands.
proof fn lemma_encoded_at_concat(b: Seq<u8>, pos: int, e1: Seq<u8>, e2: Seq<u8>)
    ensures
        encoded_at(b, pos, e1 + e2) <==> (encoded_at(b, pos, e1) && encoded_at(b, pos + e1.len(), e2)),
{
    if encoded_at(b, pos, e1 + e2) {
        let w = b.subrange(pos, pos + e1.len() + e2.len());
        assert(w == e1 + e2);
        assert(b.subrange(pos, pos + e1.len()) =~= w.subrange(0, e1.len() as int));
        assert(w.subrange(0, e1.len() as int) =~= e1);
        assert(b.subrange(pos + e1.len(), pos + e1.len() + e2.len()) =~= w.subrange(
            e1.len() as int,
            (e1.len() + e2.len()) as int,
        ));
        assert(w.subrange(e1.len() as int, (e1.len() + e2.len()) as int) =~= e2);
    }
    if encoded_at(b, pos, e1) && encoded_at(b, pos + e1.len(), e2) {
        assert(b.subrange(pos, pos + (e1 + e2).len()) =~= b.subrange(pos, pos + e1.len()) + b.subrange(
            pos + e1.len(),
            pos + e1.len() + e2.len(),
        ));
        assert(b.subrange(pos, pos + (e1 + e2).len()) =~= e1 + e2);
    }
}

/// The bytes of one more element follow the bytes of those before it.
proof fn lemma_concat_step<A>(s: Seq<A>, f: spec_fn(A) -> Seq<u8>, j: int)
    requires
        0 <= j < s.len(),
    ensures
        concat_map(s.take(j + 1), f) == concat_map(s.take(j), f) + f(s[j]),
{
    assert(s.take(j + 1).drop_last() =~= s.take(j));
}

/// The bytes of a prefix stand at the start of the bytes of the whole.
proof fn lemma_concat_prefix<A>(b: Seq<u8>, pos: int, s: Seq<A>, f: spec_fn(A) -> Seq<u8>, j: int)
    requires
        0 <= j <= s.len(),
        encoded_at(b, pos, concat_map(s, f)),
    ensures
        encoded_at(b, pos, concat_map(s.take(j), f)),
    decreases s.len() - j,
{
    if j == s.len() {
        assert(s.take(j) =~= s);
    } else {
        lemma_concat_prefix(b, pos, s, f, j + 1);
        lemma_concat_step(s, f, j);
        lemma_encoded_at_concat(b, pos, concat_map(s.take(j), f), f(s[j]));
    }
}

/// Each element takes at least one byte.
pub proof fn lemma_concat_len<A>(s: Seq<A>, f: spec_fn(A) -> Seq<u8>)
    requires
        forall|x: A| #[trigger] f(x).len() >= 1,
    ensures
        concat_map(s, f).len() >= s.len(),
    decreases s.len(),
{
    if s.len() > 0 {
        lemma_concat_len(s.drop_last(), f);
        assert(f(s.last()).len() >= 1);
    }
}

/// The byte that stands for a flag.
pub open spec fn flag_byte(x: bool) -> u8 {
    if x {
        1
    } else {
        0
    }
}

/// The bytes of a field: a tag, then the number.
pub open spec fn enc_field(f: Field) -> Seq<u8> {
    match f {
        Field::Value(v) => seq![0u8] + le64(v),
        Field::Ref(e) => seq![1u8] + le64(e.id),
    }
}

/// The bytes of a component: its type, its field count, its fields.
pub open spec fn enc_component(c: ComponentView) -> Seq<u8> {
    le64(c.type_id as u64) + le64(c.fields.len() as u64) + concat_map(c.fields, field_bytes())
}

/// The bytes of a record: its old identity, its Save Marker, its component
/// count, its components.
pub open spec fn enc_record(r: RecordView) -> Seq<u8> {
    le64(r.id) + seq![flag_byte(r.save)] + le64(r.components.len() as u64) + concat_map(r.components, component_bytes())
}

/// The bytes of a snapshot: its record count, then its records.
pub open spec fn encode_spec(rs: Seq<RecordView>) -> Seq<u8> {
    le64(rs.len() as u64) + concat_map(rs, record_bytes())
}

/// The encoder of one field, as a function value.
pub open spec fn field_bytes() -> spec_fn(Field) -> Seq<u8> {
    |f: Field| enc_field(f)
}

/// The encoder of one component, as a function value.
pub open spec fn component_bytes() -> spec_fn(ComponentView) -> Seq<u8> {
    |c: ComponentView| enc_component(c)
}

/// The encoder of one record, as a function value.
pub open spec fn record_bytes() -> spec_fn(RecordView) -> Seq<u8> {
    |r: RecordView| enc_record(r)
}

/// Every count in `c` fits the eight bytes that carry it.
pub open spec fn component_fits(c: ComponentView) -> bool {
    c.fields.len() <= u64::MAX
}

/// Every count in `r` fits the eight bytes that carry it.
pub open spec fn record_fits(r: RecordView) -> bool {
    &&& r.components.len() <= u64::MAX
    &&& forall|j: int| 0 <= j < r.components.len() ==> component_fits(#[trigger] r.components[j])
}

/// Every count in `rs` fits the eight bytes that carry it.
pub open spec fn snapshot_fits(rs: Seq<RecordView>) -> bool {
    &&& rs.len() <= u64::MAX
    &&& forall|j: int| 0 <= j < rs.len() ==> record_fits(#[trigger] rs[j])
}

/// Appends the bytes of `f` to `out`.
fn write_field(out: &mut Vec<u8>, f: Field)
    ensures
        final(out)@ == old(out)@ + enc_field(f),
{
    match f {
        Field::Value(v) => {
            out.push(0u8);
            write_u64(out, v);
        },
        Field::Ref(e) => {
            out.push(1u8);
            write_u64(out, e.id);
        },
    }
    assert(out@ =~= old(out)@ + enc_field(f));
}

/// Appends the bytes of `c` to `out`.
fn write_component(out: &mut Vec<u8>, c: &Component)
    ensures
        final(out)@ == old(out)@ + enc_component(c@),
        component_fits(c@),
{
    let ghost start = out@;
    write_u64(out, c.type_id as u64);
    write_u64(out, c.fields.len() as u64);
    let ghost head = out@;
    let mut i: usize = 0;
    while i < c.fields.len()
        invariant
            i <= c.fields@.len(),
            out@ == head + concat_map(c.fields@.take(i as int), field_bytes()),
        decreases c.fields@.len() - i,
    {
        proof {
            lemma_concat_step(c.fields@, field_bytes(), i as int);
        }
        let ghost prev = out@;
        write_field(out, c.fields[i]);
        proof {
            assert(field_bytes()(c.fields@[i as int]) == enc_field(c.fields@[i as int]));
            assert(out@ =~= head + (concat_map(c.fields@.take(i as int), field_bytes()) + field_bytes()(c.fields@[i as int])));
        }
        i = i + 1;
        proof {
            assert(out@ =~= head + concat_map(c.fields@.take(i as int), field_bytes()));
        }
    }
    proof {
        assert(c.fields@.take(i as int) =~= c.fields@);
        assert(out@ =~= start + enc_component(c@));
    }
}

/// Appends the bytes of `r` to `out`.
fn write_record(out: &mut Vec<u8>, r: &EntityRecord)
    ensures
        final(out)@ == old(out)@ + enc_record(r@),
        record_fits(r@),
{
    let ghost start = out@;
    let ghost cs = r@.components;
    write_u64(out, r.entity.id);
    out.push(if r.save { 1u8 } else { 0u8 });
    write_u64(out, r.components.len() as u64);
    let ghost head = out@;
    let mut i: usize = 0;
    while i < r.components.len()
        invariant
            i <= cs.len(),
            cs == r@.components,
            out@ == head + concat_map(cs.take(i as int), component_bytes()),
            forall|j: int| 0 <= j < i ==> component_fits(#[trigger] cs[j]),
        decreases cs.len() - i,
    {
        proof {
            lemma_concat_step(cs, component_bytes(), i as int);
        }
        write_component(out, &r.components[i]);
        proof {
            assert(r.components@[i as int]@ == cs[i as int]);
            assert(component_bytes()(cs[i as int]) == enc_component(cs[i as int]));
            assert(out@ =~= head + (concat_map(cs.take(i as int), component_bytes()) + component_bytes()(cs[i as int])));
        }
        i = i + 1;
        proof {
            assert(out@ =~= head + concat_map(cs.take(i as int), component_bytes()));
        }
    }
    proof {
        assert(cs.take(i as int) =~= cs);
        assert(out@ =~= start + enc_record(r@));
    }
}

/// The bytes of `snapshot`.
pub fn encode(snapshot: &Snapshot) -> (r: Vec<u8>)
    ensures
        r@ == encode_spec(snapshot@),
        snapshot_fits(snapshot@),
{
    let ghost rs = snapshot@;
    let mut out: Vec<u8> = Vec::new();
    write_u64(&mut out, snapshot.records.len() as u64);
    let ghost head = out@;
    let mut i: usize = 0;
    while i < snapshot.records.len()
        invariant
            i <= rs.len(),
            rs == snapshot@,
            out@ == head + concat_map(rs.take(i as int), record_bytes()),
            forall|j: int| 0 <= j < i ==> record_fits(#[trigger] rs[j]),
        decreases rs.len() - i,
    {
        proof {
            lemma_concat_step(rs, record_bytes(), i as int);
        }
        write_record(&mut out, &snapshot.records[i]);
        proof {
            assert(snapshot.records@[i as int]@ == rs[i as int]);
            assert(record_bytes()(rs[i as int]) == enc_record(rs[i as int]));
            assert(out@ =~= head + (concat_map(rs.take(i as int), record_bytes()) + record_bytes()(rs[i as int])));
        }
        i = i + 1;
        proof {
            assert(out@ =~= head + concat_map(rs.take(i as int), record_bytes()));
        }
    }
    proof {
        assert(rs.take(i as int) =~= rs);
        assert(out@ =~= encode_spec(rs));
    }
    out
}

/// In a list's encoding, element `i` stands right after the elements before it.
proof fn lemma_next_element<A>(b: Seq<u8>, pos: int, s: Seq<A>, f: spec_fn(A) -> Seq<u8>, i: int)
    requires
        0 <= i < s.len(),
        encoded_at(b, pos, concat_map(s, f)),
    ensures
        encoded_at(b, pos + concat_map(s.take(i), f).len(), f(s[i])),
{
    lemma_concat_prefix(b, pos, s, f, i + 1);
    lemma_concat_step(s, f, i);
    lemma_encoded_at_concat(b, pos, concat_map(s.take(i), f), f(s[i]));
}

/// A number read where its encoding stands is that number.
proof fn lemma_read_back(b: Seq<u8>, pos: int, x: u64, y: u64)
    requires
        encoded_at(b, pos, le64(x)),
        b.subrange(pos, pos + 8) == le64(y),
    ensures
        x == y,
{
    lemma_le64_injective(x, y);
}

/// Reads the byte at `pos`, if there is one.
fn read_byte(b: &Vec<u8>, pos: usize) -> (r: Option<u8>)
    ensures
        match r {
            Some(x) => encoded_at(b@, pos as int, seq![x]),
            None => pos >= b@.len(),
        },
{
    if pos < b.len() {
        let x = b[pos];
        assert(b@.subrange(pos as int, pos + 1) =~= seq![x]);
        Some(x)
    } else {
        None
    }
}

/// Reads the field encoded at `pos`, and where it ends.
fn read_field(b: &Vec<u8>, pos: usize) -> (r: Option<(Field, usize)>)
    ensures
        r matches Some((f, end)) ==> encoded_at(b@, pos as int, enc_field(f)) && end == pos + enc_field(f).len(),
        forall|g: Field|
            encoded_at(b@, pos as int, #[trigger] enc_field(g)) ==> r == Some((g, (pos + enc_field(g).len()) as usize)),
{
    let tag = match read_byte(b, pos) {
        Some(t) => t,
        None => {
            assert forall|g: Field| !encoded_at(b@, pos as int, #[trigger] enc_field(g)) by {}
            return None;
        },
    };
    proof {
        assert(b@.subrange(pos as int, pos + 1)[0] == b@[pos as int]);
    }
    if tag > 1 || b.len() < 9 || pos > b.len() - 9 {
        assert forall|g: Field| !encoded_at(b@, pos as int, #[trigger] enc_field(g)) by {
            if encoded_at(b@, pos as int, enc_field(g)) {
                assert(b@.subrange(pos as int, pos + 9)[0] == b@[pos as int]);
                assert(b@[pos as int] == enc_field(g)[0]);
            }
        }
        return None;
    }
    let x = match read_u64(b, pos + 1) {
        Some(x) => x,
        None => {
            assert forall|g: Field| !encoded_at(b@, pos as int, #[trigger] enc_field(g)) by {}
            return None;
        },
    };
    let f = if tag == 0 { Field::Value(x) } else { Field::Ref(Entity { id: x }) };
    proof {
        assert(b@.subrange(pos as int, pos + 9) =~= b@.subrange(pos as int, pos + 1) + b@.subrange(pos + 1, pos + 9));
        assert(encoded_at(b@, pos as int, enc_field(f)));
        assert forall|g: Field| encoded_at(b@, pos as int, #[trigger] enc_field(g)) implies g == f by {
            let (gt, gx) = match g {
                Field::Value(v) => (0u8, v),
                Field::Ref(e) => (1u8, e.id),
            };
            assert(enc_field(g) == seq![gt] + le64(gx));
            lemma_encoded_at_concat(b@, pos as int, seq![gt], le64(gx));
            assert(b@.subrange(pos as int, pos + 1)[0] == gt);
            lemma_read_back(b@, pos + 1, gx, x);
        }
    }
    Some((f, pos + 9))
}

/// Reads `n` fields encoded from `pos` on, and where they end.
fn read_fields(b: &Vec<u8>, pos: usize, n: u64) -> (r: Option<(Vec<Field>, usize)>)
    ensures
        r matches Some((fs, end)) ==> fs@.len() == n && encoded_at(b@, pos as int, concat_map(fs@, field_bytes()))
            && end == pos + concat_map(fs@, field_bytes()).len(),
        forall|fs: Seq<Field>|
            fs.len() == n && encoded_at(b@, pos as int, #[trigger] concat_map(fs, field_bytes())) ==> (r matches Some(
                (out, end),
            ) && out@ == fs && end == pos + concat_map(fs, field_bytes()).len()),
{
    if pos > b.len() {
        return None;
    }
    let mut out: Vec<Field> = Vec::new();
    let mut cur: usize = pos;
    let mut i: u64 = 0;
    proof {
        assert(out@ =~= Seq::<Field>::empty());
        assert(b@.subrange(pos as int, pos as int) =~= Seq::<u8>::empty());
        assert(concat_map(out@, field_bytes()) =~= Seq::<u8>::empty());
    }
    while i < n
        invariant
            i <= n,
            out@.len() == i,
            encoded_at(b@, pos as int, concat_map(out@, field_bytes())),
            cur == pos + concat_map(out@, field_bytes()).len(),
            forall|fs: Seq<Field>|
                fs.len() == n && encoded_at(b@, pos as int, #[trigger] concat_map(fs, field_bytes())) ==> out@ == fs.take(
                    i as int,
                ),
        decreases n - i,
    {
        let ghost prev = out@;
        match read_field(b, cur) {
            Some((f, end)) => {
                proof {
                    assert forall|fs: Seq<Field>| fs.len() == n && encoded_at(b@, pos as int, #[trigger] concat_map(fs, field_bytes())) implies fs[i as int] == f by {
                        lemma_next_element(b@, pos as int, fs, field_bytes(), i as int);
                        assert(fs.take(i as int) == prev);
                    }
                    lemma_encoded_at_concat(b@, pos as int, concat_map(prev, field_bytes()), enc_field(f));
                }
                out.push(f);
                cur = end;
                i = i + 1;
                proof {
                    assert(out@.drop_last() =~= prev);
                    assert forall|fs: Seq<Field>| fs.len() == n && encoded_at(b@, pos as int, #[trigger] concat_map(fs, field_bytes())) implies out@ == fs.take(i as int) by {
                        assert(fs.take(i as int) =~= fs.take(i - 1).push(fs[i - 1]));
                    }
                }
            },
            None => {
                proof {
                    assert forall|fs: Seq<Field>| fs.len() == n implies !encoded_at(b@, pos as int, #[trigger] concat_map(fs, field_bytes())) by {
                        if encoded_at(b@, pos as int, concat_map(fs, field_bytes())) {
                            lemma_next_element(b@, pos as int, fs, field_bytes(), i as int);
                            assert(fs.take(i as int) == prev);
                        }
                    }
                }
                return None;
            },
        }
    }
    proof {
        assert forall|fs: Seq<Field>| fs.len() == n && encoded_at(b@, pos as int, #[trigger] concat_map(fs, field_bytes())) implies out@ == fs by {
            assert(fs.take(n as int) =~= fs);
        }
    }
    Some((out, cur))
}

/// Reads the component encoded at `pos`, and where it ends.
fn read_component(b: &Vec<u8>, pos: usize) -> (r: Option<(Component, usize)>)
    ensures
        r matches Some((c, end)) ==> component_fits(c@) && encoded_at(b@, pos as int, enc_component(c@)) && end == pos
            + enc_component(c@).len(),
        forall|cv: ComponentView|
            component_fits(cv) && encoded_at(b@, pos as int, #[trigger] enc_component(cv)) ==> (r matches Some((c, end))
                && c@ == cv && end == pos + enc_component(cv).len()),
{
    let len: usize = b.len();
    let t = match read_u64(b, pos) {
        Some(t) => t,
        None => {
            assert forall|cv: ComponentView| !encoded_at(b@, pos as int, #[trigger] enc_component(cv)) by {
                lemma_encoded_at_concat(b@, pos as int, le64(cv.type_id as u64) + le64(cv.fields.len() as u64), concat_map(cv.fields, field_bytes()));
                lemma_encoded_at_concat(b@, pos as int, le64(cv.type_id as u64), le64(cv.fields.len() as u64));
            }
            return None;
        },
    };
    let n = match read_u64(b, pos + 8) {
        Some(n) => n,
        None => {
            assert forall|cv: ComponentView| !encoded_at(b@, pos as int, #[trigger] enc_component(cv)) by {
                lemma_encoded_at_concat(b@, pos as int, le64(cv.type_id as u64) + le64(cv.fields.len() as u64), concat_map(cv.fields, field_bytes()));
                lemma_encoded_at_concat(b@, pos as int, le64(cv.type_id as u64), le64(cv.fields.len() as u64));
            }
            return None;
        },
    };
    // Facts on every component encoded here: its type and count are the ones read.
    proof {
        assert forall|cv: ComponentView| encoded_at(b@, pos as int, #[trigger] enc_component(cv)) implies cv.type_id as u64 == t
            && cv.fields.len() as u64 == n && encoded_at(b@, pos + 16, concat_map(cv.fields, field_bytes())) by {
            lemma_encoded_at_concat(b@, pos as int, le64(cv.type_id as u64) + le64(cv.fields.len() as u64), concat_map(cv.fields, field_bytes()));
            lemma_encoded_at_concat(b@, pos as int, le64(cv.type_id as u64), le64(cv.fields.len() as u64));
            lemma_read_back(b@, pos as int, cv.type_id as u64, t);
            lemma_read_back(b@, pos + 8, cv.fields.len() as u64, n);
        }
    }
    if t > 0xffff_ffffu64 {
        return None;
    }
    let (fields, end) = match read_fields(b, pos + 16, n) {
        Some(x) => x,
        None => {
            return None;
        },
    };
    let c = Component { type_id: t as u32, fields };
    proof {
        assert(c@.type_id as u64 == t);
        lemma_encoded_at_concat(b@, pos as int, le64(t), le64(n));
        assert(b@.subrange(pos as int, pos + 16) =~= b@.subrange(pos as int, pos + 8) + b@.subrange(pos + 8, pos + 16));
        lemma_encoded_at_concat(b@, pos as int, le64(t) + le64(n), concat_map(c@.fields, field_bytes()));
    }
    Some((c, end))
}

/// Reads `n` components encoded from `pos` on, and where they end.
fn read_components(b: &Vec<u8>, pos: usize, n: u64) -> (r: Option<(Vec<Component>, usize)>)
    ensures
        r matches Some((cs, end)) ==> cs@.len() == n && (forall|j: int| 0 <= j < cs@.len() ==> component_fits(#[trigger] cs@[j]@))
            && encoded_at(b@, pos as int, concat_map(cs@.map_values(|c: Component| c@), component_bytes()))
            && end == pos + concat_map(cs@.map_values(|c: Component| c@), component_bytes()).len(),
        forall|cvs: Seq<ComponentView>|
            cvs.len() == n && (forall|j: int| 0 <= j < cvs.len() ==> component_fits(#[trigger] cvs[j])) && encoded_at(
                b@,
                pos as int,
                #[trigger] concat_map(cvs, component_bytes()),
            ) ==> (r matches Some((out, end)) && out@.map_values(|c: Component| c@) == cvs && end == pos + concat_map(
                cvs,
                component_bytes(),
            ).len()),
{
    if pos > b.len() {
        return None;
    }
    let mut out: Vec<Component> = Vec::new();
    let mut cur: usize = pos;
    let mut i: u64 = 0;
    proof {
        assert(out@.map_values(|c: Component| c@) =~= Seq::<ComponentView>::empty());
        assert(b@.subrange(pos as int, pos as int) =~= Seq::<u8>::empty());
    }
    while i < n
        invariant
            i <= n,
            out@.len() == i,
            forall|j: int| 0 <= j < out@.len() ==> component_fits(#[trigger] out@[j]@),
            encoded_at(b@, pos as int, concat_map(out@.map_values(|c: Component| c@), component_bytes())),
            cur == pos + concat_map(out@.map_values(|c: Component| c@), component_bytes()).len(),
            forall|cvs: Seq<ComponentView>|
                cvs.len() == n && (forall|j: int| 0 <= j < cvs.len() ==> component_fits(#[trigger] cvs[j])) && encoded_at(
                    b@,
                    pos as int,
                    #[trigger] concat_map(cvs, component_bytes()),
                ) ==> out@.map_values(|c: Component| c@) == cvs.take(i as int),
        decreases n - i,
    {
        let ghost prev = out@.map_values(|c: Component| c@);
        match read_component(b, cur) {
            Some((c, end)) => {
                let ghost cv = c@;
                proof {
                    assert forall|cvs: Seq<ComponentView>|
                        cvs.len() == n && (forall|j: int| 0 <= j < cvs.len() ==> component_fits(#[trigger] cvs[j])) && encoded_at(
                            b@,
                            pos as int,
                            #[trigger] concat_map(cvs, component_bytes()),
                        ) implies cvs[i as int] == cv by {
                        lemma_next_element(b@, pos as int, cvs, component_bytes(), i as int);
                        assert(cvs.take(i as int) == prev);
                        assert(component_fits(cvs[i as int]));
                    }
                    lemma_encoded_at_concat(b@, pos as int, concat_map(prev, component_bytes()), enc_component(cv));
                }
                out.push(c);
                cur = end;
                i = i + 1;
                proof {
                    assert(out@.map_values(|c: Component| c@) =~= prev.push(cv));
                    assert(out@.map_values(|c: Component| c@).drop_last() =~= prev);
                    assert forall|cvs: Seq<ComponentView>|
                        cvs.len() == n && (forall|j: int| 0 <= j < cvs.len() ==> component_fits(#[trigger] cvs[j])) && encoded_at(
                            b@,
                            pos as int,
                            #[trigger] concat_map(cvs, component_bytes()),
                        ) implies out@.map_values(|c: Component| c@) == cvs.take(i as int) by {
                        assert(cvs.take(i as int) =~= cvs.take(i - 1).push(cvs[i - 1]));
                    }
                }
            },
            None => {
                proof {
                    assert forall|cvs: Seq<ComponentView>|
                        cvs.len() == n && (forall|j: int| 0 <= j < cvs.len() ==> component_fits(#[trigger] cvs[j])) implies !encoded_at(
                            b@,
                            pos as int,
                            #[trigger] concat_map(cvs, component_bytes()),
                        ) by {
                        if encoded_at(b@, pos as int, concat_map(cvs, component_bytes())) {
                            lemma_next_element(b@, pos as int, cvs, component_bytes(), i as int);
                            assert(cvs.take(i as int) == prev);
                            assert(component_fits(cvs[i as int]));
                        }
                    }
                }
                return None;
            },
        }
    }
    proof {
        assert forall|cvs: Seq<ComponentView>|
            cvs.len() == n && (forall|j: int| 0 <= j < cvs.len() ==> component_fits(#[trigger] cvs[j])) && encoded_at(
                b@,
                pos as int,
                #[trigger] concat_map(cvs, component_bytes()),
            ) implies out@.map_values(|c: Component| c@) == cvs by {
            assert(cvs.take(n as int) =~= cvs);
        }
    }
    Some((out, cur))
}

/// The parts of a record's encoding, where it stands.
proof fn lemma_record_parts(b: Seq<u8>, pos: int, rv: RecordView)
    requires
        encoded_at(b, pos, enc_record(rv)),
    ensures
        encoded_at(b, pos, le64(rv.id)),
        b[pos + 8] == flag_byte(rv.save),
        encoded_at(b, pos + 9, le64(rv.components.len() as u64)),
        encoded_at(b, pos + 17, concat_map(rv.components, component_bytes())),
{
    let h1 = le64(rv.id);
    let h2 = h1 + seq![flag_byte(rv.save)];
    let h3 = h2 + le64(rv.components.len() as u64);
    lemma_encoded_at_concat(b, pos, h3, concat_map(rv.components, component_bytes()));
    lemma_encoded_at_concat(b, pos, h2, le64(rv.components.len() as u64));
    lemma_encoded_at_concat(b, pos, h1, seq![flag_byte(rv.save)]);
    assert(b.subrange(pos + 8, pos + 9)[0] == b[pos + 8]);
}

/// Reads the record encoded at `pos`, and where it ends.
fn read_record(b: &Vec<u8>, pos: usize) -> (r: Option<(EntityRecord, usize)>)
    ensures
        r matches Some((rec, end)) ==> record_fits(rec@) && encoded_at(b@, pos as int, enc_record(rec@)) && end == pos
            + enc_record(rec@).len(),
        forall|rv: RecordView|
            record_fits(rv) && encoded_at(b@, pos as int, #[trigger] enc_record(rv)) ==> (r matches Some((rec, end))
                && rec@ == rv && end == pos + enc_record(rv).len()),
{
    let len: usize = b.len();
    let id = match read_u64(b, pos) {
        Some(x) => x,
        None => {
            assert forall|rv: RecordView| !encoded_at(b@, pos as int, #[trigger] enc_record(rv)) by {
                if encoded_at(b@, pos as int, enc_record(rv)) {
                    lemma_record_parts(b@, pos as int, rv);
                }
            }
            return None;
        },
    };
    let flag = match read_byte(b, pos + 8) {
        Some(x) => x,
        None => {
            assert forall|rv: RecordView| !encoded_at(b@, pos as int, #[trigger] enc_record(rv)) by {
                if encoded_at(b@, pos as int, enc_record(rv)) {
                    lemma_record_parts(b@, pos as int, rv);
                }
            }
            return None;
        },
    };
    proof {
        assert(b@.subrange(pos + 8, pos + 9)[0] == b@[pos + 8]);
    }
    if flag > 1 {
        assert forall|rv: RecordView| !encoded_at(b@, pos as int, #[trigger] enc_record(rv)) by {
            if encoded_at(b@, pos as int, enc_record(rv)) {
                lemma_record_parts(b@, pos as int, rv);
            }
        }
        return None;
    }
    let n = match read_u64(b, pos + 9) {
        Some(x) => x,
        None => {
            assert forall|rv: RecordView| !encoded_at(b@, pos as int, #[trigger] enc_record(rv)) by {
                if encoded_at(b@, pos as int, enc_record(rv)) {
                    lemma_record_parts(b@, pos as int, rv);
                }
            }
            return None;
        },
    };
    proof {
        assert forall|rv: RecordView| encoded_at(b@, pos as int, #[trigger] enc_record(rv)) implies rv.id == id
            && rv.save == (flag == 1) && rv.components.len() as u64 == n by {
            lemma_record_parts(b@, pos as int, rv);
            lemma_read_back(b@, pos as int, rv.id, id);
            lemma_read_back(b@, pos + 9, rv.components.len() as u64, n);
        }
    }
    let (components, end) = match read_components(b, pos + 17, n) {
        Some(x) => x,
        None => {
            assert forall|rv: RecordView| record_fits(rv) implies !encoded_at(b@, pos as int, #[trigger] enc_record(rv)) by {
                if encoded_at(b@, pos as int, enc_record(rv)) {
                    lemma_record_parts(b@, pos as int, rv);
                    assert(rv.components.len() == n);
                }
            }
            return None;
        },
    };
    let rec = EntityRecord { entity: Entity { id }, save: flag == 1, components };
    proof {
        let h1 = le64(id);
        let h2 = h1 + seq![flag_byte(rec.save)];
        let h3 = h2 + le64(n);
        assert(flag_byte(rec.save) == flag);
        lemma_encoded_at_concat(b@, pos as int, h1, seq![flag]);
        assert(b@.subrange(pos as int, pos + 9) =~= b@.subrange(pos as int, pos + 8) + b@.subrange(pos + 8, pos + 9));
        lemma_encoded_at_concat(b@, pos as int, h2, le64(n));
        lemma_encoded_at_concat(b@, pos as int, h3, concat_map(rec@.components, component_bytes()));
        assert(rec@.components.len() == n);
        assert forall|j: int| 0 <= j < rec@.components.len() implies component_fits(#[trigger] rec@.components[j]) by {
            assert(rec@.components[j] == rec.components@[j]@);
        }
        assert(enc_record(rec@) == h3 + concat_map(rec@.components, component_bytes()));
        assert forall|rv: RecordView| record_fits(rv) && encoded_at(b@, pos as int, #[trigger] enc_record(rv)) implies rec@ == rv by {
            lemma_record_parts(b@, pos as int, rv);
            assert(rv.components.len() == n);
            assert(rec@.components == rv.components);
        }
    }
    Some((rec, end))
}

/// Reads `n` records encoded from `pos` on, and where they end.
fn read_records(b: &Vec<u8>, pos: usize, n: u64) -> (r: Option<(Vec<EntityRecord>, usize)>)
    ensures
        r matches Some((cs, end)) ==> cs@.len() == n && (forall|j: int| 0 <= j < cs@.len() ==> record_fits(#[trigger] cs@[j]@))
            && encoded_at(b@, pos as int, concat_map(cs@.map_values(|c: EntityRecord| c@), record_bytes()))
            && end == pos + concat_map(cs@.map_values(|c: EntityRecord| c@), record_bytes()).len(),
        forall|cvs: Seq<RecordView>|
            cvs.len() == n && (forall|j: int| 0 <= j < cvs.len() ==> record_fits(#[trigger] cvs[j])) && encoded_at(
                b@,
                pos as int,
                #[trigger] concat_map(cvs, record_bytes()),
            ) ==> (r matches Some((out, end)) && out@.map_values(|c: EntityRecord| c@) == cvs && end == pos + concat_map(
                cvs,
                record_bytes(),
            ).len()),
{
    if pos > b.len() {
        return None;
    }
    let mut out: Vec<EntityRecord> = Vec::new();
    let mut cur: usize = pos;
    let mut i: u64 = 0;
    proof {
        assert(out@.map_values(|c: EntityRecord| c@) =~= Seq::<RecordView>::empty());
        assert(b@.subrange(pos as int, pos as int) =~= Seq::<u8>::empty());
    }
    while i < n
        invariant
            i <= n,
            out@.len() == i,
            forall|j: int| 0 <= j < out@.len() ==> record_fits(#[trigger] out@[j]@),
            encoded_at(b@, pos as int, concat_map(out@.map_values(|c: EntityRecord| c@), record_bytes())),
            cur == pos + concat_map(out@.map_values(|c: EntityRecord| c@), record_bytes()).len(),
            forall|cvs: Seq<RecordView>|
                cvs.len() == n && (forall|j: int| 0 <= j < cvs.len() ==> record_fits(#[trigger] cvs[j])) && encoded_at(
                    b@,
                    pos as int,
                    #[trigger] concat_map(cvs, record_bytes()),
                ) ==> out@.map_values(|c: EntityRecord| c@) == cvs.take(i as int),
        decreases n - i,
    {
        let ghost prev = out@.map_values(|c: EntityRecord| c@);
        match read_record(b, cur) {
            Some((c, end)) => {
                let ghost cv = c@;
                proof {
                    assert forall|cvs: Seq<RecordView>|
                        cvs.len() == n && (forall|j: int| 0 <= j < cvs.len() ==> record_fits(#[trigger] cvs[j])) && encoded_at(
                            b@,
                            pos as int,
                            #[trigger] concat_map(cvs, record_bytes()),
                        ) implies cvs[i as int] == cv by {
                        lemma_next_element(b@, pos as int, cvs, record_bytes(), i as int);
                        assert(cvs.take(i as int) == prev);
                        assert(record_fits(cvs[i as int]));
                    }
                    lemma_encoded_at_concat(b@, pos as int, concat_map(prev, record_bytes()), enc_record(cv));
                }
                out.push(c);
                cur = end;
                i = i + 1;
                proof {
                    assert(out@.map_values(|c: EntityRecord| c@) =~= prev.push(cv));
                    assert(out@.map_values(|c: EntityRecord| c@).drop_last() =~= prev);
                    assert forall|cvs: Seq<RecordView>|
                        cvs.len() == n && (forall|j: int| 0 <= j < cvs.len() ==> record_fits(#[trigger] cvs[j])) && encoded_at(
                            b@,
                            pos as int,
                            #[trigger] concat_map(cvs, record_bytes()),
                        ) implies out@.map_values(|c: EntityRecord| c@) == cvs.take(i as int) by {
                        assert(cvs.take(i as int) =~= cvs.take(i - 1).push(cvs[i - 1]));
                    }
                }
            },
            None => {
                proof {
                    assert forall|cvs: Seq<RecordView>|
                        cvs.len() == n && (forall|j: int| 0 <= j < cvs.len() ==> record_fits(#[trigger] cvs[j])) implies !encoded_at(
                            b@,
                            pos as int,
                            #[trigger] concat_map(cvs, record_bytes()),
                        ) by {
                        if encoded_at(b@, pos as int, concat_map(cvs, record_bytes())) {
                            lemma_next_element(b@, pos as int, cvs, record_bytes(), i as int);
                            assert(cvs.take(i as int) == prev);
                            assert(record_fits(cvs[i as int]));
                        }
                    }
                }
                return None;
            },
        }
    }
    proof {
        assert forall|cvs: Seq<RecordView>|
            cvs.len() == n && (forall|j: int| 0 <= j < cvs.len() ==> record_fits(#[trigger] cvs[j])) && encoded_at(
                b@,
                pos as int,
                #[trigger] concat_map(cvs, record_bytes()),
            ) implies out@.map_values(|c: EntityRecord| c@) == cvs by {
            assert(cvs.take(n as int) =~= cvs);
        }
    }
    Some((out, cur))
}

/// The snapshot that `b` encodes: exactly when `b` is the encoding of a
/// snapshot, that snapshot.
pub fn decode(b: &Vec<u8>) -> (r: Option<Snapshot>)
    ensures
        r matches Some(s) ==> snapshot_fits(s@) && encode_spec(s@) == b@,
        forall|sv: Seq<RecordView>| snapshot_fits(sv) && #[trigger] encode_spec(sv) == b@ ==> (r matches Some(s) && s@ == sv),
{
    let len: usize = b.len();
    let n = match read_u64(b, 0) {
        Some(x) => x,
        None => {
            assert forall|sv: Seq<RecordView>| #[trigger] encode_spec(sv) != b@ by {
                assert(encode_spec(sv).len() >= 8);
            }
            return None;
        },
    };
    proof {
        assert forall|sv: Seq<RecordView>| #[trigger] encode_spec(sv) == b@ implies sv.len() as u64 == n
            && encoded_at(b@, 8, concat_map(sv, record_bytes())) by {
            assert(b@.subrange(0, b@.len() as int) =~= b@);
            lemma_encoded_at_concat(b@, 0, le64(sv.len() as u64), concat_map(sv, record_bytes()));
            lemma_read_back(b@, 0, sv.len() as u64, n);
        }
    }
    let (records, end) = match read_records(b, 8, n) {
        Some(x) => x,
        None => {
            return None;
        },
    };
    if end != b.len() {
        proof {
            assert forall|sv: Seq<RecordView>| snapshot_fits(sv) implies #[trigger] encode_spec(sv) != b@ by {
                if encode_spec(sv) == b@ {
                    assert(sv.len() == n);
                }
            }
        }
        return None;
    }
    let s = Snapshot { records };
    proof {
        assert(s@ == records@.map_values(|c: EntityRecord| c@));
        lemma_encoded_at_concat(b@, 0, le64(n), concat_map(s@, record_bytes()));
        assert(b@.subrange(0, 8) =~= le64(n));
        assert(b@.subrange(0, b@.len() as int) =~= b@);
        assert(encode_spec(s@) =~= b@);
        assert forall|j: int| 0 <= j < s@.len() implies record_fits(#[trigger] s@[j]) by {
            assert(s@[j] == records@[j]@);
        }
    }
    Some(s)
}

} // verus!
