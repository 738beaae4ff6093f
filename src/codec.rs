use vstd::prelude::*;
use vstd::bytes::{spec_u64_to_le_bytes, spec_u32_to_le_bytes, u64_to_le_bytes, u32_to_le_bytes, u64_from_le_bytes, u32_from_le_bytes, lemma_auto_spec_u64_to_from_le_bytes, lemma_auto_spec_u32_to_from_le_bytes};
use vstd::utf8::{
    encode_utf8, valid_utf8, decode_utf8, encode_utf8_valid_utf8, encode_utf8_decode_utf8,
    decode_utf8_encode_utf8,
};
use vstd::string::StringSliceAdditionalSpecFns;
use vstd::slice::{slice_subrange, slice_to_vec};
use crate::model::{
    Activity, ActivityView, Location, LocationView, Transportation, TransportationView, Trip,
    TripView, activity_views, location_views, transportation_views,
};

verus! {

broadcast use vstd::std_specs::vec::axiom_spec_len;

/// `e` occurs in `b` starting at byte `pos`.
pub open spec fn starts_at(b: Seq<u8>, pos: int, e: Seq<u8>) -> bool {
    0 <= pos && pos + e.len() <= b.len() && b.subrange(pos, pos + e.len()) == e
}

proof fn lemma_starts_at_split(b: Seq<u8>, pos: int, x: Seq<u8>, y: Seq<u8>)
    requires
        starts_at(b, pos, x + y),
    ensures
        starts_at(b, pos, x),
        starts_at(b, pos + x.len(), y),
{
    let whole = b.subrange(pos, pos + (x + y).len());
    assert(whole == x + y);
    assert(b.subrange(pos, pos + x.len()) =~= whole.subrange(0, x.len() as int));
    assert(whole.subrange(0, x.len() as int) =~= x);
    assert(b.subrange(pos + x.len(), pos + x.len() + y.len()) =~= whole.subrange(
        x.len() as int,
        whole.len() as int,
    ));
    assert(whole.subrange(x.len() as int, whole.len() as int) =~= y);
}

pub open spec fn enc_u64(x: u64) -> Seq<u8> {
    spec_u64_to_le_bytes(x)
}

pub open spec fn enc_u32(x: u32) -> Seq<u8> {
    spec_u32_to_le_bytes(x)
}

pub open spec fn enc_i64(x: i64) -> Seq<u8> {
    spec_u64_to_le_bytes(x as u64)
}

/// A string is its UTF-8 byte length, then its UTF-8 bytes.
pub open spec fn enc_str(s: Seq<char>) -> Seq<u8> {
    enc_u64(encode_utf8(s).len() as u64) + encode_utf8(s)
}

pub open spec fn enc_activity(a: ActivityView) -> Seq<u8> {
    enc_u64(a.id) + (enc_str(a.name) + (enc_u32(a.duration) + (enc_i64(a.cost) + (enc_str(
        a.description,
    ) + enc_u64(a.location)))))
}

fn write_u64(out: &mut Vec<u8>, x: u64)
    ensures
        final(out)@ == old(out)@ + enc_u64(x),
{
    let b = u64_to_le_bytes(x);
    out.extend_from_slice(b.as_slice());
}

fn write_u32(out: &mut Vec<u8>, x: u32)
    ensures
        final(out)@ == old(out)@ + enc_u32(x),
{
    let b = u32_to_le_bytes(x);
    out.extend_from_slice(b.as_slice());
}

fn write_i64(out: &mut Vec<u8>, x: i64)
    ensures
        final(out)@ == old(out)@ + enc_i64(x),
{
    write_u64(out, x as u64);
}

fn write_str(out: &mut Vec<u8>, s: &String)
    ensures
        final(out)@ == old(out)@ + enc_str(s@),
{
    let b = s.as_str().as_bytes();
    write_u64(out, b.len() as u64);
    out.extend_from_slice(b);
}

fn write_activity(out: &mut Vec<u8>, a: &Activity)
    ensures
        final(out)@ == old(out)@ + enc_activity(a@),
{
    write_u64(out, a.id);
    write_str(out, &a.name);
    write_u32(out, a.duration);
    write_i64(out, a.cost);
    write_str(out, &a.description);
    write_u64(out, a.location);
    assert(final(out)@ =~= old(out)@ + enc_activity(a@));
}

fn read_u64(b: &Vec<u8>, pos: usize, Ghost(x): Ghost<u64>) -> (r: u64)
    requires
        starts_at(b@, pos as int, enc_u64(x)),
    ensures
        r == x,
{
    proof {
        assert(b@.len() == b.len());
    }
    proof {
        lemma_auto_spec_u64_to_from_le_bytes();
        assert(enc_u64(x).len() == 8);
    }
    u64_from_le_bytes(slice_subrange(b.as_slice(), pos, pos + 8))
}

fn read_u32(b: &Vec<u8>, pos: usize, Ghost(x): Ghost<u32>) -> (r: u32)
    requires
        starts_at(b@, pos as int, enc_u32(x)),
    ensures
        r == x,
{
    proof {
        assert(b@.len() == b.len());
    }
    proof {
        lemma_auto_spec_u32_to_from_le_bytes();
        assert(enc_u32(x).len() == 4);
    }
    u32_from_le_bytes(slice_subrange(b.as_slice(), pos, pos + 4))
}

fn read_i64(b: &Vec<u8>, pos: usize, Ghost(x): Ghost<i64>) -> (r: i64)
    requires
        starts_at(b@, pos as int, enc_i64(x)),
    ensures
        r == x,
{
    let u = read_u64(b, pos, Ghost(x as u64));
    assert(forall|v: i64| #[trigger] ((v as u64) as i64) == v) by (bit_vector);
    u as i64
}

fn read_str(b: &Vec<u8>, pos: usize, Ghost(s): Ghost<Seq<char>>) -> (r: (String, usize))
    requires
        starts_at(b@, pos as int, enc_str(s)),
    ensures
        r.0@ == s,
        r.1 == pos + enc_str(s).len(),
{
    proof {
        assert(b@.len() == b.len());
    }
    proof {
        lemma_auto_spec_u64_to_from_le_bytes();
        lemma_starts_at_split(b@, pos as int, enc_u64(encode_utf8(s).len() as u64), encode_utf8(s));
        encode_utf8_valid_utf8(s);
        encode_utf8_decode_utf8(s);
        assert(enc_u64(encode_utf8(s).len() as u64).len() == 8);
    }
    let n = read_u64(b, pos, Ghost(encode_utf8(s).len() as u64)) as usize;
    let start = pos + 8;
    let bytes = slice_to_vec(slice_subrange(b.as_slice(), start, start + n));
    assert(bytes@ == encode_utf8(s));
    let text = match string_from_utf8(bytes) {
        Some(t) => t,
        None => String::new(),
    };
    (text, start + n)
}

/// Relies on `String::from_utf8`: it succeeds exactly on valid UTF-8, and the
/// string it returns holds the characters that those bytes encode.
#[verifier::external_body]
fn string_from_utf8(bytes: Vec<u8>) -> (r: Option<String>)
    ensures
        r is Some <==> valid_utf8(bytes@),
        r matches Some(s) ==> s@ == decode_utf8(bytes@),
{
    String::from_utf8(bytes).ok()
}

fn read_activity(b: &Vec<u8>, pos: usize, Ghost(a): Ghost<ActivityView>) -> (r: (
    Activity,
    usize,
))
    requires
        starts_at(b@, pos as int, enc_activity(a)),
    ensures
        r.0@ == a,
        r.1 == pos + enc_activity(a).len(),
{
    proof {
        assert(b@.len() == b.len());
    }
    let ghost rest1 = enc_str(a.name) + (enc_u32(a.duration) + (enc_i64(a.cost) + (enc_str(a.description) + enc_u64(a.location))));
    proof { lemma_starts_at_split(b@, pos as int, enc_u64(a.id), rest1); lemma_auto_spec_u64_to_from_le_bytes(); }
    let id = read_u64(b, pos, Ghost(a.id));
    let ghost rest2 = enc_u32(a.duration) + (enc_i64(a.cost) + (enc_str(a.description) + enc_u64(a.location)));
    proof { lemma_starts_at_split(b@, pos + 8, enc_str(a.name), rest2); }
    let (name, p) = read_str(b, pos + 8, Ghost(a.name));
    let ghost rest3 = enc_i64(a.cost) + (enc_str(a.description) + enc_u64(a.location));
    proof { lemma_starts_at_split(b@, p as int, enc_u32(a.duration), rest3); lemma_auto_spec_u32_to_from_le_bytes(); }
    let duration = read_u32(b, p, Ghost(a.duration));
    let p = p + 4;
    let ghost rest4 = enc_str(a.description) + enc_u64(a.location);
    proof { lemma_starts_at_split(b@, p as int, enc_i64(a.cost), rest4); }
    let cost = read_i64(b, p, Ghost(a.cost));
    let p = p + 8;
    proof { lemma_starts_at_split(b@, p as int, enc_str(a.description), enc_u64(a.location)); }
    let (description, p) = read_str(b, p, Ghost(a.description));
    let location = read_u64(b, p, Ghost(a.location));
    (Activity { id, name, duration, cost, description, location }, p + 8)
}


/// A sequence is the concatenation of its items' encodings.
pub open spec fn enc_list<T>(s: Seq<T>, f: spec_fn(T) -> Seq<u8>) -> Seq<u8>
    decreases s.len(),
{
    if s.len() == 0 {
        Seq::empty()
    } else {
        f(s[0]) + enc_list(s.skip(1), f)
    }
}

proof fn lemma_enc_list_push<T>(s: Seq<T>, x: T, f: spec_fn(T) -> Seq<u8>)
    ensures
        enc_list(s.push(x), f) == enc_list(s, f) + f(x),
    decreases s.len(),
{
    if s.len() == 0 {
        assert(s.push(x).skip(1) =~= Seq::<T>::empty());
        assert(s.push(x)[0] == x);
        assert(enc_list(Seq::<T>::empty(), f) =~= Seq::<u8>::empty());
        assert(enc_list(s.push(x), f) == f(x) + enc_list(Seq::<T>::empty(), f));
        assert(enc_list(s.push(x), f) =~= enc_list(s, f) + f(x));
    } else {
        assert(s.push(x).skip(1) =~= s.skip(1).push(x));
        assert(s.push(x)[0] == s[0]);
        lemma_enc_list_push(s.skip(1), x, f);
        assert(enc_list(s.push(x), f) == f(s[0]) + (enc_list(s.skip(1), f) + f(x)));
        assert(enc_list(s.push(x), f) =~= enc_list(s, f) + f(x));
    }
}

proof fn lemma_enc_list_skip<T>(s: Seq<T>, i: int, f: spec_fn(T) -> Seq<u8>)
    requires
        0 <= i < s.len(),
    ensures
        enc_list(s.skip(i), f) == f(s[i]) + enc_list(s.skip(i + 1), f),
{
    assert(s.skip(i).skip(1) =~= s.skip(i + 1));
}

/// Each item of `s` encodes to at least `k` bytes.
pub proof fn lemma_enc_list_len<T>(s: Seq<T>, f: spec_fn(T) -> Seq<u8>, k: nat)
    requires
        forall|i: int| 0 <= i < s.len() ==> #[trigger] f(s[i]).len() >= k,
    ensures
        enc_list(s, f).len() >= k * s.len(),
    decreases s.len(),
{
    if s.len() > 0 {
        assert forall|i: int| 0 <= i < s.skip(1).len() implies #[trigger] f(s.skip(1)[i]).len()
            >= k by {
            assert(s.skip(1)[i] == s[i + 1]);
        }
        lemma_enc_list_len(s.skip(1), f, k);
        assert(f(s[0]).len() >= k);
        assert(k * s.len() == k + k * (s.len() - 1)) by (nonlinear_arith);
    }
}

pub open spec fn enc_activity_list(s: Seq<ActivityView>) -> Seq<u8> {
    enc_list(s, |a: ActivityView| enc_activity(a))
}

/// A list of activities is its length, then the activities in order.
pub open spec fn enc_activities(s: Seq<ActivityView>) -> Seq<u8> {
    enc_u64(s.len() as u64) + enc_activity_list(s)
}

pub open spec fn enc_transportation(t: TransportationView) -> Seq<u8> {
    enc_u64(t.id) + (enc_str(t.type_) + (enc_u64(t.from) + (enc_u64(t.to) + (enc_i64(t.cost)
        + enc_str(t.date)))))
}

pub open spec fn enc_transportation_list(s: Seq<TransportationView>) -> Seq<u8> {
    enc_list(s, |t: TransportationView| enc_transportation(t))
}

pub open spec fn enc_transportations(s: Seq<TransportationView>) -> Seq<u8> {
    enc_u64(s.len() as u64) + enc_transportation_list(s)
}

pub open spec fn enc_location(l: LocationView) -> Seq<u8> {
    enc_u64(l.id) + (enc_str(l.name) + (enc_str(l.country) + (enc_str(l.site) + (enc_str(
        l.description,
    ) + enc_activities(l.activities)))))
}

pub open spec fn enc_location_list(s: Seq<LocationView>) -> Seq<u8> {
    enc_list(s, |l: LocationView| enc_location(l))
}

pub open spec fn enc_locations(s: Seq<LocationView>) -> Seq<u8> {
    enc_u64(s.len() as u64) + enc_location_list(s)
}

pub open spec fn enc_trip(t: TripView) -> Seq<u8> {
    enc_u64(t.id) + (enc_str(t.name) + (enc_str(t.start_date) + (enc_str(t.end_date) + (
    enc_locations(t.destinations) + (enc_activities(t.activities) + (enc_i64(t.budget)
        + enc_transportations(t.transportation)))))))
}

fn write_activities(out: &mut Vec<u8>, v: &Vec<Activity>)
    ensures
        final(out)@ == old(out)@ + enc_activities(activity_views(v@)),
{
    let ghost s = activity_views(v@);
    write_u64(out, v.len() as u64);
    let ghost start = out@;
    let mut i: usize = 0;
    while i < v.len()
        invariant
            i <= v.len(),
            s == activity_views(v@),
            out@ == start + enc_activity_list(s.take(i as int)),
        decreases v.len() - i,
    {
        proof {
            lemma_enc_list_push(s.take(i as int), s[i as int], |a: ActivityView| enc_activity(a));
            assert(s.take(i + 1) =~= s.take(i as int).push(s[i as int]));
        }
        write_activity(out, &v[i]);
        i += 1;
    }
    assert(s.take(i as int) =~= s);
    assert(final(out)@ =~= old(out)@ + enc_activities(s));
}

fn read_activities(b: &Vec<u8>, pos: usize, Ghost(s): Ghost<Seq<ActivityView>>) -> (r: (
    Vec<Activity>,
    usize,
))
    requires
        starts_at(b@, pos as int, enc_activities(s)),
    ensures
        activity_views(r.0@) == s,
        r.1 == pos + enc_activities(s).len(),
{
    proof {
        assert(b@.len() == b.len());
        lemma_auto_spec_u64_to_from_le_bytes();
        lemma_starts_at_split(b@, pos as int, enc_u64(s.len() as u64), enc_activity_list(s));
        lemma_enc_list_len(s, |a: ActivityView| enc_activity(a), 1);
        assert(s.skip(0) =~= s);
    }
    let n = read_u64(b, pos, Ghost(s.len() as u64));
    let mut out: Vec<Activity> = Vec::new();
    let mut p: usize = pos + 8;
    let mut i: u64 = 0;
    while i < n
        invariant
            i <= n,
            n == s.len(),
            pos + enc_activities(s).len() <= b@.len(),
            starts_at(b@, p as int, enc_activity_list(s.skip(i as int))),
            p + enc_activity_list(s.skip(i as int)).len() == pos + enc_activities(s).len(),
            activity_views(out@) == s.take(i as int),
        decreases n - i,
    {
        proof {
            lemma_enc_list_skip(s, i as int, |a: ActivityView| enc_activity(a));
            lemma_starts_at_split(
                b@,
                p as int,
                enc_activity(s[i as int]),
                enc_activity_list(s.skip(i + 1)),
            );
        }
        let (a, q) = read_activity(b, p, Ghost(s[i as int]));
        let ghost before = out@;
        out.push(a);
        assert(activity_views(out@) =~= activity_views(before).push(a@));
        assert(s.take(i + 1) =~= s.take(i as int).push(s[i as int]));
        p = q;
        i += 1;
    }
    assert(s.take(i as int) =~= s);
    assert(s.skip(i as int) =~= Seq::<ActivityView>::empty());
    (out, p)
}


fn write_transportations(out: &mut Vec<u8>, v: &Vec<Transportation>)
    ensures
        final(out)@ == old(out)@ + enc_transportations(transportation_views(v@)),
{
    let ghost s = transportation_views(v@);
    write_u64(out, v.len() as u64);
    let ghost start = out@;
    let mut i: usize = 0;
    while i < v.len()
        invariant
            i <= v.len(),
            s == transportation_views(v@),
            out@ == start + enc_transportation_list(s.take(i as int)),
        decreases v.len() - i,
    {
        proof {
            lemma_enc_list_push(s.take(i as int), s[i as int], |x: TransportationView| enc_transportation(x));
            assert(s.take(i + 1) =~= s.take(i as int).push(s[i as int]));
        }
        write_transportation(out, &v[i]);
        i += 1;
    }
    assert(s.take(i as int) =~= s);
    assert(final(out)@ =~= old(out)@ + enc_transportations(s));
}

fn read_transportations(b: &Vec<u8>, pos: usize, Ghost(s): Ghost<Seq<TransportationView>>) -> (r: (
    Vec<Transportation>,
    usize,
))
    requires
        starts_at(b@, pos as int, enc_transportations(s)),
    ensures
        transportation_views(r.0@) == s,
        r.1 == pos + enc_transportations(s).len(),
{
    proof {
        assert(b@.len() == b.len());
        lemma_auto_spec_u64_to_from_le_bytes();
        lemma_starts_at_split(b@, pos as int, enc_u64(s.len() as u64), enc_transportation_list(s));
        lemma_enc_list_len(s, |x: TransportationView| enc_transportation(x), 1);
        assert(s.skip(0) =~= s);
    }
    let n = read_u64(b, pos, Ghost(s.len() as u64));
    let mut out: Vec<Transportation> = Vec::new();
    let mut p: usize = pos + 8;
    let mut i: u64 = 0;
    while i < n
        invariant
            i <= n,
            n == s.len(),
            pos + enc_transportations(s).len() <= b@.len(),
            starts_at(b@, p as int, enc_transportation_list(s.skip(i as int))),
            p + enc_transportation_list(s.skip(i as int)).len() == pos + enc_transportations(s).len(),
            transportation_views(out@) == s.take(i as int),
        decreases n - i,
    {
        proof {
            lemma_enc_list_skip(s, i as int, |x: TransportationView| enc_transportation(x));
            lemma_starts_at_split(b@, p as int, enc_transportation(s[i as int]), enc_transportation_list(s.skip(i + 1)));
        }
        let (x, q) = read_transportation(b, p, Ghost(s[i as int]));
        let ghost before = out@;
        out.push(x);
        assert(transportation_views(out@) =~= transportation_views(before).push(x@));
        assert(s.take(i + 1) =~= s.take(i as int).push(s[i as int]));
        p = q;
        i += 1;
    }
    assert(s.take(i as int) =~= s);
    assert(s.skip(i as int) =~= Seq::<TransportationView>::empty());
    (out, p)
}

fn write_locations(out: &mut Vec<u8>, v: &Vec<Location>)
    ensures
        final(out)@ == old(out)@ + enc_locations(location_views(v@)),
{
    let ghost s = location_views(v@);
    write_u64(out, v.len() as u64);
    let ghost start = out@;
    let mut i: usize = 0;
    while i < v.len()
        invariant
            i <= v.len(),
            s == location_views(v@),
            out@ == start + enc_location_list(s.take(i as int)),
        decreases v.len() - i,
    {
        proof {
            lemma_enc_list_push(s.take(i as int), s[i as int], |x: LocationView| enc_location(x));
            assert(s.take(i + 1) =~= s.take(i as int).push(s[i as int]));
        }
        write_location(out, &v[i]);
        i += 1;
    }
    assert(s.take(i as int) =~= s);
    assert(final(out)@ =~= old(out)@ + enc_locations(s));
}

fn read_locations(b: &Vec<u8>, pos: usize, Ghost(s): Ghost<Seq<LocationView>>) -> (r: (
    Vec<Location>,
    usize,
))
    requires
        starts_at(b@, pos as int, enc_locations(s)),
    ensures
        location_views(r.0@) == s,
        r.1 == pos + enc_locations(s).len(),
{
    proof {
        assert(b@.len() == b.len());
        lemma_auto_spec_u64_to_from_le_bytes();
        lemma_starts_at_split(b@, pos as int, enc_u64(s.len() as u64), enc_location_list(s));
        lemma_enc_list_len(s, |x: LocationView| enc_location(x), 1);
        assert(s.skip(0) =~= s);
    }
    let n = read_u64(b, pos, Ghost(s.len() as u64));
    let mut out: Vec<Location> = Vec::new();
    let mut p: usize = pos + 8;
    let mut i: u64 = 0;
    while i < n
        invariant
            i <= n,
            n == s.len(),
            pos + enc_locations(s).len() <= b@.len(),
            starts_at(b@, p as int, enc_location_list(s.skip(i as int))),
            p + enc_location_list(s.skip(i as int)).len() == pos + enc_locations(s).len(),
            location_views(out@) == s.take(i as int),
        decreases n - i,
    {
        proof {
            lemma_enc_list_skip(s, i as int, |x: LocationView| enc_location(x));
            lemma_starts_at_split(b@, p as int, enc_location(s[i as int]), enc_location_list(s.skip(i + 1)));
        }
        let (x, q) = read_location(b, p, Ghost(s[i as int]));
        let ghost before = out@;
        out.push(x);
        assert(location_views(out@) =~= location_views(before).push(x@));
        assert(s.take(i + 1) =~= s.take(i as int).push(s[i as int]));
        p = q;
        i += 1;
    }
    assert(s.take(i as int) =~= s);
    assert(s.skip(i as int) =~= Seq::<LocationView>::empty());
    (out, p)
}

fn write_transportation(out: &mut Vec<u8>, t: &Transportation)
    ensures
        final(out)@ == old(out)@ + enc_transportation(t@),
{
    write_u64(out, t.id);
    write_str(out, &t.type_);
    write_u64(out, t.from);
    write_u64(out, t.to);
    write_i64(out, t.cost);
    write_str(out, &t.date);
    assert(final(out)@ =~= old(out)@ + enc_transportation(t@));
}

fn read_transportation(b: &Vec<u8>, pos: usize, Ghost(v): Ghost<TransportationView>) -> (r: (Transportation, usize))
    requires
        starts_at(b@, pos as int, enc_transportation(v)),
    ensures
        r.0@ == v,
        r.1 == pos + enc_transportation(v).len(),
{
    proof {
        assert(b@.len() == b.len());
        lemma_auto_spec_u64_to_from_le_bytes();
        lemma_auto_spec_u32_to_from_le_bytes();
    }
    let p: usize = pos;
    proof {
        lemma_starts_at_split(b@, p as int, enc_u64(v.id), enc_str(v.type_) + (enc_u64(v.from) + (enc_u64(v.to) + (enc_i64(v.cost) + (enc_str(v.date))))));
    }
    let id = read_u64(b, p, Ghost(v.id));
    let p: usize = p + 8;
    proof {
        lemma_starts_at_split(b@, p as int, enc_str(v.type_), enc_u64(v.from) + (enc_u64(v.to) + (enc_i64(v.cost) + (enc_str(v.date)))));
    }
    let (type_, p) = read_str(b, p, Ghost(v.type_));
    proof {
        lemma_starts_at_split(b@, p as int, enc_u64(v.from), enc_u64(v.to) + (enc_i64(v.cost) + (enc_str(v.date))));
    }
    let from = read_u64(b, p, Ghost(v.from));
    let p: usize = p + 8;
    proof {
        lemma_starts_at_split(b@, p as int, enc_u64(v.to), enc_i64(v.cost) + (enc_str(v.date)));
    }
    let to = read_u64(b, p, Ghost(v.to));
    let p: usize = p + 8;
    proof {
        lemma_starts_at_split(b@, p as int, enc_i64(v.cost), enc_str(v.date));
    }
    let cost = read_i64(b, p, Ghost(v.cost));
    let p: usize = p + 8;
    let (date, p) = read_str(b, p, Ghost(v.date));
    (Transportation { id, type_, from, to, cost, date }, p)
}

#[verifier::rlimit(40)]
fn write_location(out: &mut Vec<u8>, l: &Location)
    ensures
        final(out)@ == old(out)@ + enc_location(l@),
{
    write_u64(out, l.id);
    write_str(out, &l.name);
    write_str(out, &l.country);
    write_str(out, &l.site);
    write_str(out, &l.description);
    write_activities(out, &l.activities);
    assert(final(out)@ =~= old(out)@ + enc_location(l@));
}

#[verifier::rlimit(40)]
fn read_location(b: &Vec<u8>, pos: usize, Ghost(v): Ghost<LocationView>) -> (r: (Location, usize))
    requires
        starts_at(b@, pos as int, enc_location(v)),
    ensures
        r.0@ == v,
        r.1 == pos + enc_location(v).len(),
{
    proof {
        assert(b@.len() == b.len());
        lemma_auto_spec_u64_to_from_le_bytes();
        lemma_auto_spec_u32_to_from_le_bytes();
    }
    let p: usize = pos;
    proof {
        lemma_starts_at_split(b@, p as int, enc_u64(v.id), enc_str(v.name) + (enc_str(v.country) + (enc_str(v.site) + (enc_str(v.description) + (enc_activities(v.activities))))));
    }
    let id = read_u64(b, p, Ghost(v.id));
    let p: usize = p + 8;
    proof {
        lemma_starts_at_split(b@, p as int, enc_str(v.name), enc_str(v.country) + (enc_str(v.site) + (enc_str(v.description) + (enc_activities(v.activities)))));
    }
    let (name, p) = read_str(b, p, Ghost(v.name));
    proof {
        lemma_starts_at_split(b@, p as int, enc_str(v.country), enc_str(v.site) + (enc_str(v.description) + (enc_activities(v.activities))));
    }
    let (country, p) = read_str(b, p, Ghost(v.country));
    proof {
        lemma_starts_at_split(b@, p as int, enc_str(v.site), enc_str(v.description) + (enc_activities(v.activities)));
    }
    let (site, p) = read_str(b, p, Ghost(v.site));
    proof {
        lemma_starts_at_split(b@, p as int, enc_str(v.description), enc_activities(v.activities));
    }
    let (description, p) = read_str(b, p, Ghost(v.description));
    let (activities, p) = read_activities(b, p, Ghost(v.activities));
    (Location { id, name, country, site, description, activities }, p)
}

#[verifier::rlimit(40)]
fn write_trip(out: &mut Vec<u8>, t: &Trip)
    ensures
        final(out)@ == old(out)@ + enc_trip(t@),
{
    write_u64(out, t.id);
    write_str(out, &t.name);
    write_str(out, &t.start_date);
    write_str(out, &t.end_date);
    write_locations(out, &t.destinations);
    write_activities(out, &t.activities);
    write_i64(out, t.budget);
    write_transportations(out, &t.transportation);
    assert(final(out)@ =~= old(out)@ + enc_trip(t@));
}

#[verifier::rlimit(40)]
fn read_trip(b: &Vec<u8>, pos: usize, Ghost(v): Ghost<TripView>) -> (r: (Trip, usize))
    requires
        starts_at(b@, pos as int, enc_trip(v)),
    ensures
        r.0@ == v,
        r.1 == pos + enc_trip(v).len(),
{
    proof {
        assert(b@.len() == b.len());
        lemma_auto_spec_u64_to_from_le_bytes();
        lemma_auto_spec_u32_to_from_le_bytes();
    }
    let p: usize = pos;
    proof {
        lemma_starts_at_split(b@, p as int, enc_u64(v.id), enc_str(v.name) + (enc_str(v.start_date) + (enc_str(v.end_date) + (enc_locations(v.destinations) + (enc_activities(v.activities) + (enc_i64(v.budget) + (enc_transportations(v.transportation))))))));
    }
    let id = read_u64(b, p, Ghost(v.id));
    let p: usize = p + 8;
    proof {
        lemma_starts_at_split(b@, p as int, enc_str(v.name), enc_str(v.start_date) + (enc_str(v.end_date) + (enc_locations(v.destinations) + (enc_activities(v.activities) + (enc_i64(v.budget) + (enc_transportations(v.transportation)))))));
    }
    let (name, p) = read_str(b, p, Ghost(v.name));
    proof {
        lemma_starts_at_split(b@, p as int, enc_str(v.start_date), enc_str(v.end_date) + (enc_locations(v.destinations) + (enc_activities(v.activities) + (enc_i64(v.budget) + (enc_transportations(v.transportation))))));
    }
    let (start_date, p) = read_str(b, p, Ghost(v.start_date));
    proof {
        lemma_starts_at_split(b@, p as int, enc_str(v.end_date), enc_locations(v.destinations) + (enc_activities(v.activities) + (enc_i64(v.budget) + (enc_transportations(v.transportation)))));
    }
    let (end_date, p) = read_str(b, p, Ghost(v.end_date));
    proof {
        lemma_starts_at_split(b@, p as int, enc_locations(v.destinations), enc_activities(v.activities) + (enc_i64(v.budget) + (enc_transportations(v.transportation))));
    }
    let (destinations, p) = read_locations(b, p, Ghost(v.destinations));
    proof {
        lemma_starts_at_split(b@, p as int, enc_activities(v.activities), enc_i64(v.budget) + (enc_transportations(v.transportation)));
    }
    let (activities, p) = read_activities(b, p, Ghost(v.activities));
    proof {
        lemma_starts_at_split(b@, p as int, enc_i64(v.budget), enc_transportations(v.transportation));
    }
    let budget = read_i64(b, p, Ghost(v.budget));
    let p: usize = p + 8;
    let (transportation, p) = read_transportations(b, p, Ghost(v.transportation));
    (Trip { id, name, start_date, end_date, destinations, activities, budget, transportation }, p)
}


/// The bytes that an activity is stored as.
pub fn encode_activity(x: &Activity) -> (r: Vec<u8>)
    ensures
        r@ == enc_activity(x@),
{
    let mut out: Vec<u8> = Vec::new();
    write_activity(&mut out, x);
    assert(out@ =~= enc_activity(x@));
    out
}

/// Reads back an activity from the bytes that it is stored as.
pub(crate) fn decode_activity(b: &Vec<u8>, Ghost(v): Ghost<ActivityView>) -> (r: Activity)
    requires
        b@ == enc_activity(v),
    ensures
        r@ == v,
{
    assert(b@.subrange(0, b@.len() as int) =~= b@);
    read_activity(b, 0, Ghost(v)).0
}

/// The bytes that a location is stored as.
pub fn encode_location(x: &Location) -> (r: Vec<u8>)
    ensures
        r@ == enc_location(x@),
{
    let mut out: Vec<u8> = Vec::new();
    write_location(&mut out, x);
    assert(out@ =~= enc_location(x@));
    out
}

/// Reads back a location from the bytes that it is stored as.
pub(crate) fn decode_location(b: &Vec<u8>, Ghost(v): Ghost<LocationView>) -> (r: Location)
    requires
        b@ == enc_location(v),
    ensures
        r@ == v,
{
    assert(b@.subrange(0, b@.len() as int) =~= b@);
    read_location(b, 0, Ghost(v)).0
}

/// The bytes that a transportation is stored as.
pub fn encode_transportation(x: &Transportation) -> (r: Vec<u8>)
    ensures
        r@ == enc_transportation(x@),
{
    let mut out: Vec<u8> = Vec::new();
    write_transportation(&mut out, x);
    assert(out@ =~= enc_transportation(x@));
    out
}

/// Reads back a transportation from the bytes that it is stored as.
pub(crate) fn decode_transportation(b: &Vec<u8>, Ghost(v): Ghost<TransportationView>) -> (r: Transportation)
    requires
        b@ == enc_transportation(v),
    ensures
        r@ == v,
{
    assert(b@.subrange(0, b@.len() as int) =~= b@);
    read_transportation(b, 0, Ghost(v)).0
}

/// The bytes that a trip is stored as.
pub fn encode_trip(x: &Trip) -> (r: Vec<u8>)
    ensures
        r@ == enc_trip(x@),
{
    let mut out: Vec<u8> = Vec::new();
    write_trip(&mut out, x);
    assert(out@ =~= enc_trip(x@));
    out
}

/// Reads back a trip from the bytes that it is stored as.
pub(crate) fn decode_trip(b: &Vec<u8>, Ghost(v): Ghost<TripView>) -> (r: Trip)
    requires
        b@ == enc_trip(v),
    ensures
        r@ == v,
{
    assert(b@.subrange(0, b@.len() as int) =~= b@);
    read_trip(b, 0, Ghost(v)).0
}


/// A trip holds no more activities, and no more legs, than its encoding has
/// bytes.
pub proof fn lemma_trip_lists_within_encoding(t: TripView)
    ensures
        t.activities.len() <= enc_trip(t).len(),
        t.transportation.len() <= enc_trip(t).len(),
{
    lemma_auto_spec_u64_to_from_le_bytes();
    assert forall|i: int| 0 <= i < t.activities.len() implies enc_activity(
        #[trigger] t.activities[i],
    ).len() >= 1 by {
        assert(enc_u64(t.activities[i].id).len() == 8);
    }
    assert forall|i: int| 0 <= i < t.transportation.len() implies enc_transportation(
        #[trigger] t.transportation[i],
    ).len() >= 1 by {
        assert(enc_u64(t.transportation[i].id).len() == 8);
    }
    lemma_enc_list_len(t.activities, |a: ActivityView| enc_activity(a), 1);
    lemma_enc_list_len(t.transportation, |x: TransportationView| enc_transportation(x), 1);
}


proof fn lemma_subrange_concat(b: Seq<u8>, i: int, j: int, k: int)
    requires
        0 <= i <= j <= k <= b.len(),
    ensures
        b.subrange(i, k) == b.subrange(i, j) + b.subrange(j, k),
{
    assert(b.subrange(i, k) =~= b.subrange(i, j) + b.subrange(j, k));
}

fn parse_u64_at(b: &Vec<u8>, pos: usize) -> (r: Option<(u64, usize)>)
    requires
        pos <= b@.len(),
    ensures
        r matches Some((x, p)) ==> pos <= p <= b@.len() && b@.subrange(pos as int, p as int)
            == enc_u64(x),
        forall|v: u64| #[trigger]
            starts_at(b@, pos as int, enc_u64(v)) ==> r == Some((v, (pos + 8) as usize)),
{
    proof {
        lemma_auto_spec_u64_to_from_le_bytes();
        assert(b@.len() == b.len());
    }
    if b.len() - pos < 8 {
        return None;
    }
    let bytes = slice_subrange(b.as_slice(), pos, pos + 8);
    let x = u64_from_le_bytes(bytes);
    Some((x, pos + 8))
}

fn parse_u32_at(b: &Vec<u8>, pos: usize) -> (r: Option<(u32, usize)>)
    requires
        pos <= b@.len(),
    ensures
        r matches Some((x, p)) ==> pos <= p <= b@.len() && b@.subrange(pos as int, p as int)
            == enc_u32(x),
        forall|v: u32| #[trigger]
            starts_at(b@, pos as int, enc_u32(v)) ==> r == Some((v, (pos + 4) as usize)),
{
    proof {
        lemma_auto_spec_u32_to_from_le_bytes();
        assert(b@.len() == b.len());
    }
    if b.len() - pos < 4 {
        return None;
    }
    let bytes = slice_subrange(b.as_slice(), pos, pos + 4);
    let x = u32_from_le_bytes(bytes);
    Some((x, pos + 4))
}

fn parse_i64_at(b: &Vec<u8>, pos: usize) -> (r: Option<(i64, usize)>)
    requires
        pos <= b@.len(),
    ensures
        r matches Some((x, p)) ==> pos <= p <= b@.len() && b@.subrange(pos as int, p as int)
            == enc_i64(x),
        forall|v: i64| #[trigger]
            starts_at(b@, pos as int, enc_i64(v)) ==> r == Some((v, (pos + 8) as usize)),
{
    let r = parse_u64_at(b, pos);
    assert(forall|v: u64| #[trigger] ((v as i64) as u64) == v) by (bit_vector);
    assert(forall|v: i64| #[trigger] ((v as u64) as i64) == v) by (bit_vector);
    proof {
        assert forall|v: i64| #[trigger] starts_at(b@, pos as int, enc_i64(v)) implies r == Some(
            ((v as u64), (pos + 8) as usize),
        ) by {
            assert(starts_at(b@, pos as int, enc_u64(v as u64)));
        }
    }
    match r {
        Some((u, p)) => Some((u as i64, p)),
        None => None,
    }
}

proof fn lemma_str_split(b: Seq<u8>, pos: int, s: Seq<char>)
    requires
        starts_at(b, pos, enc_str(s)),
    ensures
        starts_at(b, pos, enc_u64(encode_utf8(s).len() as u64)),
        starts_at(b, pos + 8, encode_utf8(s)),
        enc_str(s).len() == 8 + encode_utf8(s).len(),
{
    lemma_auto_spec_u64_to_from_le_bytes();
    assert(enc_u64(encode_utf8(s).len() as u64).len() == 8);
    lemma_starts_at_split(b, pos, enc_u64(encode_utf8(s).len() as u64), encode_utf8(s));
}

#[verifier::rlimit(100)]
#[verifier::spinoff_prover]
fn parse_str_at(b: &Vec<u8>, pos: usize) -> (r: Option<(String, usize)>)
    requires
        pos <= b@.len(),
    ensures
        r matches Some((x, p)) ==> pos <= p <= b@.len() && b@.subrange(pos as int, p as int)
            == enc_str(x@),
        forall|s: Seq<char>| #[trigger]
            starts_at(b@, pos as int, enc_str(s)) ==> (r matches Some((x, p)) && x@ == s && p == pos
                + enc_str(s).len()),
{
    proof {
        assert(b@.len() == b.len());
    }
    let (n, start) = match parse_u64_at(b, pos) {
        Some(t) => t,
        None => {
            proof {
                assert forall|s: Seq<char>| !starts_at(b@, pos as int, #[trigger] enc_str(s)) by {
                    if starts_at(b@, pos as int, enc_str(s)) {
                        lemma_str_split(b@, pos as int, s);
                    }
                }
            }
            return None;
        },
    };
    if n > (b.len() - start) as u64 {
        proof {
            assert forall|s: Seq<char>| !starts_at(b@, pos as int, #[trigger] enc_str(s)) by {
                if starts_at(b@, pos as int, enc_str(s)) {
                    lemma_str_split(b@, pos as int, s);
                }
            }
        }
        return None;
    }
    let n = n as usize;
    let bytes = slice_to_vec(slice_subrange(b.as_slice(), start, start + n));
    match string_from_utf8(bytes) {
        Some(text) => {
            proof {
                decode_utf8_encode_utf8(bytes@);
                lemma_subrange_concat(b@, pos as int, start as int, start + n);
                assert forall|s: Seq<char>| #[trigger]
                    starts_at(b@, pos as int, enc_str(s)) implies text@ == s && start + n == pos
                    + enc_str(s).len() by {
                    lemma_str_split(b@, pos as int, s);
                    encode_utf8_decode_utf8(s);
                }
            }
            Some((text, start + n))
        },
        None => {
            proof {
                assert forall|s: Seq<char>| !starts_at(b@, pos as int, #[trigger] enc_str(s)) by {
                    if starts_at(b@, pos as int, enc_str(s)) {
                        lemma_str_split(b@, pos as int, s);
                        encode_utf8_valid_utf8(s);
                    }
                }
            }
            None
        },
    }
}

proof fn lemma_activity_split(b: Seq<u8>, pos: int, v: ActivityView)
    requires
        starts_at(b, pos, enc_activity(v)),
    ensures
        starts_at(b, pos, enc_u64(v.id)),
        starts_at(b, pos + enc_u64(v.id).len(), enc_str(v.name)),
        starts_at(b, pos + enc_u64(v.id).len() + enc_str(v.name).len(), enc_u32(v.duration)),
        starts_at(b, pos + enc_u64(v.id).len() + enc_str(v.name).len() + enc_u32(v.duration).len(), enc_i64(v.cost)),
        starts_at(b, pos + enc_u64(v.id).len() + enc_str(v.name).len() + enc_u32(v.duration).len() + enc_i64(v.cost).len(), enc_str(v.description)),
        starts_at(b, pos + enc_u64(v.id).len() + enc_str(v.name).len() + enc_u32(v.duration).len() + enc_i64(v.cost).len() + enc_str(v.description).len(), enc_u64(v.location)),
        enc_activity(v).len() == pos + enc_u64(v.id).len() + enc_str(v.name).len() + enc_u32(v.duration).len() + enc_i64(v.cost).len() + enc_str(v.description).len() + enc_u64(v.location).len() - pos,
{
    lemma_starts_at_split(b, pos, enc_u64(v.id), enc_str(v.name) + (enc_u32(v.duration) + (enc_i64(v.cost) + (enc_str(v.description) + (enc_u64(v.location))))));
    lemma_starts_at_split(b, pos + enc_u64(v.id).len(), enc_str(v.name), enc_u32(v.duration) + (enc_i64(v.cost) + (enc_str(v.description) + (enc_u64(v.location)))));
    lemma_starts_at_split(b, pos + enc_u64(v.id).len() + enc_str(v.name).len(), enc_u32(v.duration), enc_i64(v.cost) + (enc_str(v.description) + (enc_u64(v.location))));
    lemma_starts_at_split(b, pos + enc_u64(v.id).len() + enc_str(v.name).len() + enc_u32(v.duration).len(), enc_i64(v.cost), enc_str(v.description) + (enc_u64(v.location)));
    lemma_starts_at_split(b, pos + enc_u64(v.id).len() + enc_str(v.name).len() + enc_u32(v.duration).len() + enc_i64(v.cost).len(), enc_str(v.description), enc_u64(v.location));
}

#[verifier::rlimit(100)]
#[verifier::spinoff_prover]
fn parse_activity_at(b: &Vec<u8>, pos: usize) -> (r: Option<(Activity, usize)>)
    requires
        pos <= b@.len(),
    ensures
        r matches Some((x, p)) ==> pos <= p <= b@.len() && b@.subrange(pos as int, p as int)
            == enc_activity(x@),
        forall|v: ActivityView| #[trigger]
            starts_at(b@, pos as int, enc_activity(v)) ==> (r matches Some((x, p)) && x@ == v && p == pos
                + enc_activity(v).len()),
{
    let p0: usize = pos;
    let (id, p1) = match parse_u64_at(b, p0) {
        Some(t) => t,
        None => {
            proof {
                assert forall|v: ActivityView| !starts_at(b@, pos as int, #[trigger] enc_activity(v)) by {
                    if starts_at(b@, pos as int, enc_activity(v)) {
                        lemma_activity_split(b@, pos as int, v);
                        assert(starts_at(b@, p0 as int, enc_u64(v.id)));
                    }
                }
            }
            return None;
        },
    };
    proof {
        assert forall|v: ActivityView| #[trigger] starts_at(b@, pos as int, enc_activity(v)) implies id == v.id
            && p1 == pos as int + enc_u64(v.id).len() by {
            lemma_activity_split(b@, pos as int, v);
            assert(starts_at(b@, p0 as int, enc_u64(v.id)));
        }
    }
    let (name, p2) = match parse_str_at(b, p1) {
        Some(t) => t,
        None => {
            proof {
                assert forall|v: ActivityView| !starts_at(b@, pos as int, #[trigger] enc_activity(v)) by {
                    if starts_at(b@, pos as int, enc_activity(v)) {
                        lemma_activity_split(b@, pos as int, v);
                        assert(starts_at(b@, p1 as int, enc_str(v.name)));
                    }
                }
            }
            return None;
        },
    };
    proof {
        assert forall|v: ActivityView| #[trigger] starts_at(b@, pos as int, enc_activity(v)) implies name@ == v.name
            && p2 == pos as int + enc_u64(v.id).len() + enc_str(v.name).len() by {
            lemma_activity_split(b@, pos as int, v);
            assert(starts_at(b@, p1 as int, enc_str(v.name)));
        }
    }
    proof {
        lemma_subrange_concat(b@, pos as int, p1 as int, p2 as int);
    }
    let (duration, p3) = match parse_u32_at(b, p2) {
        Some(t) => t,
        None => {
            proof {
                assert forall|v: ActivityView| !starts_at(b@, pos as int, #[trigger] enc_activity(v)) by {
                    if starts_at(b@, pos as int, enc_activity(v)) {
                        lemma_activity_split(b@, pos as int, v);
                        assert(starts_at(b@, p2 as int, enc_u32(v.duration)));
                    }
                }
            }
            return None;
        },
    };
    proof {
        assert forall|v: ActivityView| #[trigger] starts_at(b@, pos as int, enc_activity(v)) implies duration == v.duration
            && p3 == pos as int + enc_u64(v.id).len() + enc_str(v.name).len() + enc_u32(v.duration).len() by {
            lemma_activity_split(b@, pos as int, v);
            assert(starts_at(b@, p2 as int, enc_u32(v.duration)));
        }
    }
    proof {
        lemma_subrange_concat(b@, pos as int, p2 as int, p3 as int);
    }
    let (cost, p4) = match parse_i64_at(b, p3) {
        Some(t) => t,
        None => {
            proof {
                assert forall|v: ActivityView| !starts_at(b@, pos as int, #[trigger] enc_activity(v)) by {
                    if starts_at(b@, pos as int, enc_activity(v)) {
                        lemma_activity_split(b@, pos as int, v);
                        assert(starts_at(b@, p3 as int, enc_i64(v.cost)));
                    }
                }
            }
            return None;
        },
    };
    proof {
        assert forall|v: ActivityView| #[trigger] starts_at(b@, pos as int, enc_activity(v)) implies cost == v.cost
            && p4 == pos as int + enc_u64(v.id).len() + enc_str(v.name).len() + enc_u32(v.duration).len() + enc_i64(v.cost).len() by {
            lemma_activity_split(b@, pos as int, v);
            assert(starts_at(b@, p3 as int, enc_i64(v.cost)));
        }
    }
    proof {
        lemma_subrange_concat(b@, pos as int, p3 as int, p4 as int);
    }
    let (description, p5) = match parse_str_at(b, p4) {
        Some(t) => t,
        None => {
            proof {
                assert forall|v: ActivityView| !starts_at(b@, pos as int, #[trigger] enc_activity(v)) by {
                    if starts_at(b@, pos as int, enc_activity(v)) {
                        lemma_activity_split(b@, pos as int, v);
                        assert(starts_at(b@, p4 as int, enc_str(v.description)));
                    }
                }
            }
            return None;
        },
    };
    proof {
        assert forall|v: ActivityView| #[trigger] starts_at(b@, pos as int, enc_activity(v)) implies description@ == v.description
            && p5 == pos as int + enc_u64(v.id).len() + enc_str(v.name).len() + enc_u32(v.duration).len() + enc_i64(v.cost).len() + enc_str(v.description).len() by {
            lemma_activity_split(b@, pos as int, v);
            assert(starts_at(b@, p4 as int, enc_str(v.description)));
        }
    }
    proof {
        lemma_subrange_concat(b@, pos as int, p4 as int, p5 as int);
    }
    let (location, p6) = match parse_u64_at(b, p5) {
        Some(t) => t,
        None => {
            proof {
                assert forall|v: ActivityView| !starts_at(b@, pos as int, #[trigger] enc_activity(v)) by {
                    if starts_at(b@, pos as int, enc_activity(v)) {
                        lemma_activity_split(b@, pos as int, v);
                        assert(starts_at(b@, p5 as int, enc_u64(v.location)));
                    }
                }
            }
            return None;
        },
    };
    proof {
        assert forall|v: ActivityView| #[trigger] starts_at(b@, pos as int, enc_activity(v)) implies location == v.location
            && p6 == pos as int + enc_u64(v.id).len() + enc_str(v.name).len() + enc_u32(v.duration).len() + enc_i64(v.cost).len() + enc_str(v.description).len() + enc_u64(v.location).len() by {
            lemma_activity_split(b@, pos as int, v);
            assert(starts_at(b@, p5 as int, enc_u64(v.location)));
        }
    }
    proof {
        lemma_subrange_concat(b@, pos as int, p5 as int, p6 as int);
    }
    let x = Activity { id, name, duration, cost, description, location };
    assert(b@.subrange(pos as int, p6 as int) =~= enc_activity(x@));
    proof {
        assert forall|v: ActivityView| #[trigger] starts_at(b@, pos as int, enc_activity(v)) implies x@ == v && p6
            == pos + enc_activity(v).len() by {
            lemma_activity_split(b@, pos as int, v);
        }
    }
    Some((x, p6))
}

proof fn lemma_transportation_split(b: Seq<u8>, pos: int, v: TransportationView)
    requires
        starts_at(b, pos, enc_transportation(v)),
    ensures
        starts_at(b, pos, enc_u64(v.id)),
        starts_at(b, pos + enc_u64(v.id).len(), enc_str(v.type_)),
        starts_at(b, pos + enc_u64(v.id).len() + enc_str(v.type_).len(), enc_u64(v.from)),
        starts_at(b, pos + enc_u64(v.id).len() + enc_str(v.type_).len() + enc_u64(v.from).len(), enc_u64(v.to)),
        starts_at(b, pos + enc_u64(v.id).len() + enc_str(v.type_).len() + enc_u64(v.from).len() + enc_u64(v.to).len(), enc_i64(v.cost)),
        starts_at(b, pos + enc_u64(v.id).len() + enc_str(v.type_).len() + enc_u64(v.from).len() + enc_u64(v.to).len() + enc_i64(v.cost).len(), enc_str(v.date)),
        enc_transportation(v).len() == pos + enc_u64(v.id).len() + enc_str(v.type_).len() + enc_u64(v.from).len() + enc_u64(v.to).len() + enc_i64(v.cost).len() + enc_str(v.date).len() - pos,
{
    lemma_starts_at_split(b, pos, enc_u64(v.id), enc_str(v.type_) + (enc_u64(v.from) + (enc_u64(v.to) + (enc_i64(v.cost) + (enc_str(v.date))))));
    lemma_starts_at_split(b, pos + enc_u64(v.id).len(), enc_str(v.type_), enc_u64(v.from) + (enc_u64(v.to) + (enc_i64(v.cost) + (enc_str(v.date)))));
    lemma_starts_at_split(b, pos + enc_u64(v.id).len() + enc_str(v.type_).len(), enc_u64(v.from), enc_u64(v.to) + (enc_i64(v.cost) + (enc_str(v.date))));
    lemma_starts_at_split(b, pos + enc_u64(v.id).len() + enc_str(v.type_).len() + enc_u64(v.from).len(), enc_u64(v.to), enc_i64(v.cost) + (enc_str(v.date)));
    lemma_starts_at_split(b, pos + enc_u64(v.id).len() + enc_str(v.type_).len() + enc_u64(v.from).len() + enc_u64(v.to).len(), enc_i64(v.cost), enc_str(v.date));
}

#[verifier::rlimit(100)]
#[verifier::spinoff_prover]
fn parse_transportation_at(b: &Vec<u8>, pos: usize) -> (r: Option<(Transportation, usize)>)
    requires
        pos <= b@.len(),
    ensures
        r matches Some((x, p)) ==> pos <= p <= b@.len() && b@.subrange(pos as int, p as int)
            == enc_transportation(x@),
        forall|v: TransportationView| #[trigger]
            starts_at(b@, pos as int, enc_transportation(v)) ==> (r matches Some((x, p)) && x@ == v && p == pos
                + enc_transportation(v).len()),
{
    let p0: usize = pos;
    let (id, p1) = match parse_u64_at(b, p0) {
        Some(t) => t,
        None => {
            proof {
                assert forall|v: TransportationView| !starts_at(b@, pos as int, #[trigger] enc_transportation(v)) by {
                    if starts_at(b@, pos as int, enc_transportation(v)) {
                        lemma_transportation_split(b@, pos as int, v);
                        assert(starts_at(b@, p0 as int, enc_u64(v.id)));
                    }
                }
            }
            return None;
        },
    };
    proof {
        assert forall|v: TransportationView| #[trigger] starts_at(b@, pos as int, enc_transportation(v)) implies id == v.id
            && p1 == pos as int + enc_u64(v.id).len() by {
            lemma_transportation_split(b@, pos as int, v);
            assert(starts_at(b@, p0 as int, enc_u64(v.id)));
        }
    }
    let (type_, p2) = match parse_str_at(b, p1) {
        Some(t) => t,
        None => {
            proof {
                assert forall|v: TransportationView| !starts_at(b@, pos as int, #[trigger] enc_transportation(v)) by {
                    if starts_at(b@, pos as int, enc_transportation(v)) {
                        lemma_transportation_split(b@, pos as int, v);
                        assert(starts_at(b@, p1 as int, enc_str(v.type_)));
                    }
                }
            }
            return None;
        },
    };
    proof {
        assert forall|v: TransportationView| #[trigger] starts_at(b@, pos as int, enc_transportation(v)) implies type_@ == v.type_
            && p2 == pos as int + enc_u64(v.id).len() + enc_str(v.type_).len() by {
            lemma_transportation_split(b@, pos as int, v);
            assert(starts_at(b@, p1 as int, enc_str(v.type_)));
        }
    }
    proof {
        lemma_subrange_concat(b@, pos as int, p1 as int, p2 as int);
    }
    let (from, p3) = match parse_u64_at(b, p2) {
        Some(t) => t,
        None => {
            proof {
                assert forall|v: TransportationView| !starts_at(b@, pos as int, #[trigger] enc_transportation(v)) by {
                    if starts_at(b@, pos as int, enc_transportation(v)) {
                        lemma_transportation_split(b@, pos as int, v);
                        assert(starts_at(b@, p2 as int, enc_u64(v.from)));
                    }
                }
            }
            return None;
        },
    };
    proof {
        assert forall|v: TransportationView| #[trigger] starts_at(b@, pos as int, enc_transportation(v)) implies from == v.from
            && p3 == pos as int + enc_u64(v.id).len() + enc_str(v.type_).len() + enc_u64(v.from).len() by {
            lemma_transportation_split(b@, pos as int, v);
            assert(starts_at(b@, p2 as int, enc_u64(v.from)));
        }
    }
    proof {
        lemma_subrange_concat(b@, pos as int, p2 as int, p3 as int);
    }
    let (to, p4) = match parse_u64_at(b, p3) {
        Some(t) => t,
        None => {
            proof {
                assert forall|v: TransportationView| !starts_at(b@, pos as int, #[trigger] enc_transportation(v)) by {
                    if starts_at(b@, pos as int, enc_transportation(v)) {
                        lemma_transportation_split(b@, pos as int, v);
                        assert(starts_at(b@, p3 as int, enc_u64(v.to)));
                    }
                }
            }
            return None;
        },
    };
    proof {
        assert forall|v: TransportationView| #[trigger] starts_at(b@, pos as int, enc_transportation(v)) implies to == v.to
            && p4 == pos as int + enc_u64(v.id).len() + enc_str(v.type_).len() + enc_u64(v.from).len() + enc_u64(v.to).len() by {
            lemma_transportation_split(b@, pos as int, v);
            assert(starts_at(b@, p3 as int, enc_u64(v.to)));
        }
    }
    proof {
        lemma_subrange_concat(b@, pos as int, p3 as int, p4 as int);
    }
    let (cost, p5) = match parse_i64_at(b, p4) {
        Some(t) => t,
        None => {
            proof {
                assert forall|v: TransportationView| !starts_at(b@, pos as int, #[trigger] enc_transportation(v)) by {
                    if starts_at(b@, pos as int, enc_transportation(v)) {
                        lemma_transportation_split(b@, pos as int, v);
                        assert(starts_at(b@, p4 as int, enc_i64(v.cost)));
                    }
                }
            }
            return None;
        },
    };
    proof {
        assert forall|v: TransportationView| #[trigger] starts_at(b@, pos as int, enc_transportation(v)) implies cost == v.cost
            && p5 == pos as int + enc_u64(v.id).len() + enc_str(v.type_).len() + enc_u64(v.from).len() + enc_u64(v.to).len() + enc_i64(v.cost).len() by {
            lemma_transportation_split(b@, pos as int, v);
            assert(starts_at(b@, p4 as int, enc_i64(v.cost)));
        }
    }
    proof {
        lemma_subrange_concat(b@, pos as int, p4 as int, p5 as int);
    }
    let (date, p6) = match parse_str_at(b, p5) {
        Some(t) => t,
        None => {
            proof {
                assert forall|v: TransportationView| !starts_at(b@, pos as int, #[trigger] enc_transportation(v)) by {
                    if starts_at(b@, pos as int, enc_transportation(v)) {
                        lemma_transportation_split(b@, pos as int, v);
                        assert(starts_at(b@, p5 as int, enc_str(v.date)));
                    }
                }
            }
            return None;
        },
    };
    proof {
        assert forall|v: TransportationView| #[trigger] starts_at(b@, pos as int, enc_transportation(v)) implies date@ == v.date
            && p6 == pos as int + enc_u64(v.id).len() + enc_str(v.type_).len() + enc_u64(v.from).len() + enc_u64(v.to).len() + enc_i64(v.cost).len() + enc_str(v.date).len() by {
            lemma_transportation_split(b@, pos as int, v);
            assert(starts_at(b@, p5 as int, enc_str(v.date)));
        }
    }
    proof {
        lemma_subrange_concat(b@, pos as int, p5 as int, p6 as int);
    }
    let x = Transportation { id, type_, from, to, cost, date };
    assert(b@.subrange(pos as int, p6 as int) =~= enc_transportation(x@));
    proof {
        assert forall|v: TransportationView| #[trigger] starts_at(b@, pos as int, enc_transportation(v)) implies x@ == v && p6
            == pos + enc_transportation(v).len() by {
            lemma_transportation_split(b@, pos as int, v);
        }
    }
    Some((x, p6))
}

#[verifier::rlimit(100)]
#[verifier::spinoff_prover]
fn parse_activities_at(b: &Vec<u8>, pos: usize) -> (r: Option<(Vec<Activity>, usize)>)
    requires
        pos <= b@.len(),
    ensures
        r matches Some((x, p)) ==> pos <= p <= b@.len() && b@.subrange(pos as int, p as int)
            == enc_activities(activity_views(x@)),
        forall|s: Seq<ActivityView>| #[trigger]
            starts_at(b@, pos as int, enc_activities(s)) ==> (r matches Some((x, p)) && activity_views(x@) == s && p
                == pos + enc_activities(s).len()),
{
    proof {
        assert(b@.len() == b.len());
        lemma_auto_spec_u64_to_from_le_bytes();
        assert forall|s: Seq<ActivityView>| #[trigger] starts_at(b@, pos as int, enc_activities(s)) implies starts_at(
            b@,
            pos as int,
            enc_u64(s.len() as u64),
        ) && starts_at(b@, pos + 8, enc_activity_list(s)) && s.len() <= b@.len() by {
            lemma_starts_at_split(b@, pos as int, enc_u64(s.len() as u64), enc_activity_list(s));
            assert forall|i: int| 0 <= i < s.len() implies enc_activity(#[trigger] s[i]).len() >= 1 by {
                assert(enc_u64(s[i].id).len() == 8);
            }
            lemma_enc_list_len(s, |y: ActivityView| enc_activity(y), 1);
        }
    }
    let (n, start) = match parse_u64_at(b, pos) {
        Some(t) => t,
        None => {
            return None;
        },
    };
    let mut out: Vec<Activity> = Vec::new();
    let mut p: usize = start;
    let mut i: u64 = 0;
    proof {
        assert(b@.subrange(start as int, start as int) =~= enc_activity_list(Seq::<ActivityView>::empty()));
        assert(activity_views(out@) =~= Seq::<ActivityView>::empty());
        assert forall|s: Seq<ActivityView>| #[trigger] starts_at(b@, pos as int, enc_activities(s)) implies s.skip(0)
            == s && s.take(0) == activity_views(out@) by {
            assert(s.skip(0) =~= s);
            assert(s.take(0) =~= activity_views(out@));
        }
    }
    while i < n
        invariant
            start <= p <= b@.len(),
            pos <= start,
            start == pos + 8,
            b@.subrange(pos as int, start as int) == enc_u64(n),
            out@.len() == i,
            i <= n,
            b@.subrange(start as int, p as int) == enc_activity_list(activity_views(out@)),
            forall|s: Seq<ActivityView>| #[trigger]
                starts_at(b@, pos as int, enc_activities(s)) ==> {
                    &&& n == s.len()
                    &&& activity_views(out@) == s.take(i as int)
                    &&& starts_at(b@, p as int, enc_activity_list(s.skip(i as int)))
                    &&& p + enc_activity_list(s.skip(i as int)).len() == pos + enc_activities(s).len()
                },
        decreases n - i,
    {
        proof {
            assert forall|s: Seq<ActivityView>| #[trigger] starts_at(b@, pos as int, enc_activities(s)) implies starts_at(
                b@,
                p as int,
                enc_activity(s[i as int]),
            ) && starts_at(b@, p + enc_activity(s[i as int]).len(), enc_activity_list(s.skip(i + 1))) by {
                lemma_enc_list_skip(s, i as int, |y: ActivityView| enc_activity(y));
                lemma_starts_at_split(b@, p as int, enc_activity(s[i as int]), enc_activity_list(s.skip(i + 1)));
            }
        }
        let (x, q) = match parse_activity_at(b, p) {
            Some(t) => t,
            None => {
                proof {
                    assert forall|s: Seq<ActivityView>| !starts_at(b@, pos as int, #[trigger] enc_activities(s)) by {
                        if starts_at(b@, pos as int, enc_activities(s)) {
                            lemma_enc_list_skip(s, i as int, |y: ActivityView| enc_activity(y));
                            lemma_starts_at_split(b@, p as int, enc_activity(s[i as int]), enc_activity_list(s.skip(i + 1)));
                            assert(starts_at(b@, p as int, enc_activity(s[i as int])));
                        }
                    }
                }
                return None;
            },
        };
        proof {
            lemma_subrange_concat(b@, start as int, p as int, q as int);
            lemma_enc_list_push(activity_views(out@), x@, |y: ActivityView| enc_activity(y));
        }
        let ghost before = out@;
        out.push(x);
        assert(activity_views(out@) =~= activity_views(before).push(x@));
        proof {
            assert forall|s: Seq<ActivityView>| #[trigger] starts_at(b@, pos as int, enc_activities(s)) implies {
                &&& n == s.len()
                &&& activity_views(out@) == s.take(i + 1)
                &&& starts_at(b@, q as int, enc_activity_list(s.skip(i + 1)))
                &&& q + enc_activity_list(s.skip(i + 1)).len() == pos + enc_activities(s).len()
            } by {
                lemma_enc_list_skip(s, i as int, |y: ActivityView| enc_activity(y));
                lemma_starts_at_split(b@, p as int, enc_activity(s[i as int]), enc_activity_list(s.skip(i + 1)));
                assert(starts_at(b@, p as int, enc_activity(s[i as int])));
                assert(x@ == s[i as int]);
                assert(s.take(i + 1) =~= s.take(i as int).push(s[i as int]));
            }
        }
        p = q;
        i += 1;
    }
    proof {
        lemma_subrange_concat(b@, pos as int, start as int, p as int);
        assert forall|s: Seq<ActivityView>| #[trigger] starts_at(b@, pos as int, enc_activities(s)) implies activity_views(out@)
            == s && p == pos + enc_activities(s).len() by {
            assert(s.take(i as int) =~= s);
            assert(s.skip(i as int) =~= Seq::<ActivityView>::empty());
        }
    }
    Some((out, p))
}

#[verifier::rlimit(100)]
#[verifier::spinoff_prover]
fn parse_transportations_at(b: &Vec<u8>, pos: usize) -> (r: Option<(Vec<Transportation>, usize)>)
    requires
        pos <= b@.len(),
    ensures
        r matches Some((x, p)) ==> pos <= p <= b@.len() && b@.subrange(pos as int, p as int)
            == enc_transportations(transportation_views(x@)),
        forall|s: Seq<TransportationView>| #[trigger]
            starts_at(b@, pos as int, enc_transportations(s)) ==> (r matches Some((x, p)) && transportation_views(x@) == s && p
                == pos + enc_transportations(s).len()),
{
    proof {
        assert(b@.len() == b.len());
        lemma_auto_spec_u64_to_from_le_bytes();
        assert forall|s: Seq<TransportationView>| #[trigger] starts_at(b@, pos as int, enc_transportations(s)) implies starts_at(
            b@,
            pos as int,
            enc_u64(s.len() as u64),
        ) && starts_at(b@, pos + 8, enc_transportation_list(s)) && s.len() <= b@.len() by {
            lemma_starts_at_split(b@, pos as int, enc_u64(s.len() as u64), enc_transportation_list(s));
            assert forall|i: int| 0 <= i < s.len() implies enc_transportation(#[trigger] s[i]).len() >= 1 by {
                assert(enc_u64(s[i].id).len() == 8);
            }
            lemma_enc_list_len(s, |y: TransportationView| enc_transportation(y), 1);
        }
    }
    let (n, start) = match parse_u64_at(b, pos) {
        Some(t) => t,
        None => {
            return None;
        },
    };
    let mut out: Vec<Transportation> = Vec::new();
    let mut p: usize = start;
    let mut i: u64 = 0;
    proof {
        assert(b@.subrange(start as int, start as int) =~= enc_transportation_list(Seq::<TransportationView>::empty()));
        assert(transportation_views(out@) =~= Seq::<TransportationView>::empty());
        assert forall|s: Seq<TransportationView>| #[trigger] starts_at(b@, pos as int, enc_transportations(s)) implies s.skip(0)
            == s && s.take(0) == transportation_views(out@) by {
            assert(s.skip(0) =~= s);
            assert(s.take(0) =~= transportation_views(out@));
        }
    }
    while i < n
        invariant
            start <= p <= b@.len(),
            pos <= start,
            start == pos + 8,
            b@.subrange(pos as int, start as int) == enc_u64(n),
            out@.len() == i,
            i <= n,
            b@.subrange(start as int, p as int) == enc_transportation_list(transportation_views(out@)),
            forall|s: Seq<TransportationView>| #[trigger]
                starts_at(b@, pos as int, enc_transportations(s)) ==> {
                    &&& n == s.len()
                    &&& transportation_views(out@) == s.take(i as int)
                    &&& starts_at(b@, p as int, enc_transportation_list(s.skip(i as int)))
                    &&& p + enc_transportation_list(s.skip(i as int)).len() == pos + enc_transportations(s).len()
                },
        decreases n - i,
    {
        proof {
            assert forall|s: Seq<TransportationView>| #[trigger] starts_at(b@, pos as int, enc_transportations(s)) implies starts_at(
                b@,
                p as int,
                enc_transportation(s[i as int]),
            ) && starts_at(b@, p + enc_transportation(s[i as int]).len(), enc_transportation_list(s.skip(i + 1))) by {
                lemma_enc_list_skip(s, i as int, |y: TransportationView| enc_transportation(y));
                lemma_starts_at_split(b@, p as int, enc_transportation(s[i as int]), enc_transportation_list(s.skip(i + 1)));
            }
        }
        let (x, q) = match parse_transportation_at(b, p) {
            Some(t) => t,
            None => {
                proof {
                    assert forall|s: Seq<TransportationView>| !starts_at(b@, pos as int, #[trigger] enc_transportations(s)) by {
                        if starts_at(b@, pos as int, enc_transportations(s)) {
                            lemma_enc_list_skip(s, i as int, |y: TransportationView| enc_transportation(y));
                            lemma_starts_at_split(b@, p as int, enc_transportation(s[i as int]), enc_transportation_list(s.skip(i + 1)));
                            assert(starts_at(b@, p as int, enc_transportation(s[i as int])));
                        }
                    }
                }
                return None;
            },
        };
        proof {
            lemma_subrange_concat(b@, start as int, p as int, q as int);
            lemma_enc_list_push(transportation_views(out@), x@, |y: TransportationView| enc_transportation(y));
        }
        let ghost before = out@;
        out.push(x);
        assert(transportation_views(out@) =~= transportation_views(before).push(x@));
        proof {
            assert forall|s: Seq<TransportationView>| #[trigger] starts_at(b@, pos as int, enc_transportations(s)) implies {
                &&& n == s.len()
                &&& transportation_views(out@) == s.take(i + 1)
                &&& starts_at(b@, q as int, enc_transportation_list(s.skip(i + 1)))
                &&& q + enc_transportation_list(s.skip(i + 1)).len() == pos + enc_transportations(s).len()
            } by {
                lemma_enc_list_skip(s, i as int, |y: TransportationView| enc_transportation(y));
                lemma_starts_at_split(b@, p as int, enc_transportation(s[i as int]), enc_transportation_list(s.skip(i + 1)));
                assert(starts_at(b@, p as int, enc_transportation(s[i as int])));
                assert(x@ == s[i as int]);
                assert(s.take(i + 1) =~= s.take(i as int).push(s[i as int]));
            }
        }
        p = q;
        i += 1;
    }
    proof {
        lemma_subrange_concat(b@, pos as int, start as int, p as int);
        assert forall|s: Seq<TransportationView>| #[trigger] starts_at(b@, pos as int, enc_transportations(s)) implies transportation_views(out@)
            == s && p == pos + enc_transportations(s).len() by {
            assert(s.take(i as int) =~= s);
            assert(s.skip(i as int) =~= Seq::<TransportationView>::empty());
        }
    }
    Some((out, p))
}

proof fn lemma_location_split(b: Seq<u8>, pos: int, v: LocationView)
    requires
        starts_at(b, pos, enc_location(v)),
    ensures
        starts_at(b, pos, enc_u64(v.id)),
        starts_at(b, pos + enc_u64(v.id).len(), enc_str(v.name)),
        starts_at(b, pos + enc_u64(v.id).len() + enc_str(v.name).len(), enc_str(v.country)),
        starts_at(b, pos + enc_u64(v.id).len() + enc_str(v.name).len() + enc_str(v.country).len(), enc_str(v.site)),
        starts_at(b, pos + enc_u64(v.id).len() + enc_str(v.name).len() + enc_str(v.country).len() + enc_str(v.site).len(), enc_str(v.description)),
        starts_at(b, pos + enc_u64(v.id).len() + enc_str(v.name).len() + enc_str(v.country).len() + enc_str(v.site).len() + enc_str(v.description).len(), enc_activities(v.activities)),
        enc_location(v).len() == pos + enc_u64(v.id).len() + enc_str(v.name).len() + enc_str(v.country).len() + enc_str(v.site).len() + enc_str(v.description).len() + enc_activities(v.activities).len() - pos,
{
    lemma_starts_at_split(b, pos, enc_u64(v.id), enc_str(v.name) + (enc_str(v.country) + (enc_str(v.site) + (enc_str(v.description) + (enc_activities(v.activities))))));
    lemma_starts_at_split(b, pos + enc_u64(v.id).len(), enc_str(v.name), enc_str(v.country) + (enc_str(v.site) + (enc_str(v.description) + (enc_activities(v.activities)))));
    lemma_starts_at_split(b, pos + enc_u64(v.id).len() + enc_str(v.name).len(), enc_str(v.country), enc_str(v.site) + (enc_str(v.description) + (enc_activities(v.activities))));
    lemma_starts_at_split(b, pos + enc_u64(v.id).len() + enc_str(v.name).len() + enc_str(v.country).len(), enc_str(v.site), enc_str(v.description) + (enc_activities(v.activities)));
    lemma_starts_at_split(b, pos + enc_u64(v.id).len() + enc_str(v.name).len() + enc_str(v.country).len() + enc_str(v.site).len(), enc_str(v.description), enc_activities(v.activities));
}

#[verifier::rlimit(100)]
#[verifier::spinoff_prover]
fn parse_location_at(b: &Vec<u8>, pos: usize) -> (r: Option<(Location, usize)>)
    requires
        pos <= b@.len(),
    ensures
        r matches Some((x, p)) ==> pos <= p <= b@.len() && b@.subrange(pos as int, p as int)
            == enc_location(x@),
        forall|v: LocationView| #[trigger]
            starts_at(b@, pos as int, enc_location(v)) ==> (r matches Some((x, p)) && x@ == v && p == pos
                + enc_location(v).len()),
{
    let p0: usize = pos;
    let (id, p1) = match parse_u64_at(b, p0) {
        Some(t) => t,
        None => {
            proof {
                assert forall|v: LocationView| !starts_at(b@, pos as int, #[trigger] enc_location(v)) by {
                    if starts_at(b@, pos as int, enc_location(v)) {
                        lemma_location_split(b@, pos as int, v);
                        assert(starts_at(b@, p0 as int, enc_u64(v.id)));
                    }
                }
            }
            return None;
        },
    };
    proof {
        assert forall|v: LocationView| #[trigger] starts_at(b@, pos as int, enc_location(v)) implies id == v.id
            && p1 == pos as int + enc_u64(v.id).len() by {
            lemma_location_split(b@, pos as int, v);
            assert(starts_at(b@, p0 as int, enc_u64(v.id)));
        }
    }
    let (name, p2) = match parse_str_at(b, p1) {
        Some(t) => t,
        None => {
            proof {
                assert forall|v: LocationView| !starts_at(b@, pos as int, #[trigger] enc_location(v)) by {
                    if starts_at(b@, pos as int, enc_location(v)) {
                        lemma_location_split(b@, pos as int, v);
                        assert(starts_at(b@, p1 as int, enc_str(v.name)));
                    }
                }
            }
            return None;
        },
    };
    proof {
        assert forall|v: LocationView| #[trigger] starts_at(b@, pos as int, enc_location(v)) implies name@ == v.name
            && p2 == pos as int + enc_u64(v.id).len() + enc_str(v.name).len() by {
            lemma_location_split(b@, pos as int, v);
            assert(starts_at(b@, p1 as int, enc_str(v.name)));
        }
    }
    proof {
        lemma_subrange_concat(b@, pos as int, p1 as int, p2 as int);
    }
    let (country, p3) = match parse_str_at(b, p2) {
        Some(t) => t,
        None => {
            proof {
                assert forall|v: LocationView| !starts_at(b@, pos as int, #[trigger] enc_location(v)) by {
                    if starts_at(b@, pos as int, enc_location(v)) {
                        lemma_location_split(b@, pos as int, v);
                        assert(starts_at(b@, p2 as int, enc_str(v.country)));
                    }
                }
            }
            return None;
        },
    };
    proof {
        assert forall|v: LocationView| #[trigger] starts_at(b@, pos as int, enc_location(v)) implies country@ == v.country
            && p3 == pos as int + enc_u64(v.id).len() + enc_str(v.name).len() + enc_str(v.country).len() by {
            lemma_location_split(b@, pos as int, v);
            assert(starts_at(b@, p2 as int, enc_str(v.country)));
        }
    }
    proof {
        lemma_subrange_concat(b@, pos as int, p2 as int, p3 as int);
    }
    let (site, p4) = match parse_str_at(b, p3) {
        Some(t) => t,
        None => {
            proof {
                assert forall|v: LocationView| !starts_at(b@, pos as int, #[trigger] enc_location(v)) by {
                    if starts_at(b@, pos as int, enc_location(v)) {
                        lemma_location_split(b@, pos as int, v);
                        assert(starts_at(b@, p3 as int, enc_str(v.site)));
                    }
                }
            }
            return None;
        },
    };
    proof {
        assert forall|v: LocationView| #[trigger] starts_at(b@, pos as int, enc_location(v)) implies site@ == v.site
            && p4 == pos as int + enc_u64(v.id).len() + enc_str(v.name).len() + enc_str(v.country).len() + enc_str(v.site).len() by {
            lemma_location_split(b@, pos as int, v);
            assert(starts_at(b@, p3 as int, enc_str(v.site)));
        }
    }
    proof {
        lemma_subrange_concat(b@, pos as int, p3 as int, p4 as int);
    }
    let (description, p5) = match parse_str_at(b, p4) {
        Some(t) => t,
        None => {
            proof {
                assert forall|v: LocationView| !starts_at(b@, pos as int, #[trigger] enc_location(v)) by {
                    if starts_at(b@, pos as int, enc_location(v)) {
                        lemma_location_split(b@, pos as int, v);
                        assert(starts_at(b@, p4 as int, enc_str(v.description)));
                    }
                }
            }
            return None;
        },
    };
    proof {
        assert forall|v: LocationView| #[trigger] starts_at(b@, pos as int, enc_location(v)) implies description@ == v.description
            && p5 == pos as int + enc_u64(v.id).len() + enc_str(v.name).len() + enc_str(v.country).len() + enc_str(v.site).len() + enc_str(v.description).len() by {
            lemma_location_split(b@, pos as int, v);
            assert(starts_at(b@, p4 as int, enc_str(v.description)));
        }
    }
    proof {
        lemma_subrange_concat(b@, pos as int, p4 as int, p5 as int);
    }
    let (activities, p6) = match parse_activities_at(b, p5) {
        Some(t) => t,
        None => {
            proof {
                assert forall|v: LocationView| !starts_at(b@, pos as int, #[trigger] enc_location(v)) by {
                    if starts_at(b@, pos as int, enc_location(v)) {
                        lemma_location_split(b@, pos as int, v);
                        assert(starts_at(b@, p5 as int, enc_activities(v.activities)));
                    }
                }
            }
            return None;
        },
    };
    proof {
        assert forall|v: LocationView| #[trigger] starts_at(b@, pos as int, enc_location(v)) implies activity_views(activities@) == v.activities
            && p6 == pos as int + enc_u64(v.id).len() + enc_str(v.name).len() + enc_str(v.country).len() + enc_str(v.site).len() + enc_str(v.description).len() + enc_activities(v.activities).len() by {
            lemma_location_split(b@, pos as int, v);
            assert(starts_at(b@, p5 as int, enc_activities(v.activities)));
        }
    }
    proof {
        lemma_subrange_concat(b@, pos as int, p5 as int, p6 as int);
    }
    let x = Location { id, name, country, site, description, activities };
    assert(b@.subrange(pos as int, p6 as int) =~= enc_location(x@));
    proof {
        assert forall|v: LocationView| #[trigger] starts_at(b@, pos as int, enc_location(v)) implies x@ == v && p6
            == pos + enc_location(v).len() by {
            lemma_location_split(b@, pos as int, v);
        }
    }
    Some((x, p6))
}

#[verifier::rlimit(100)]
#[verifier::spinoff_prover]
fn parse_locations_at(b: &Vec<u8>, pos: usize) -> (r: Option<(Vec<Location>, usize)>)
    requires
        pos <= b@.len(),
    ensures
        r matches Some((x, p)) ==> pos <= p <= b@.len() && b@.subrange(pos as int, p as int)
            == enc_locations(location_views(x@)),
        forall|s: Seq<LocationView>| #[trigger]
            starts_at(b@, pos as int, enc_locations(s)) ==> (r matches Some((x, p)) && location_views(x@) == s && p
                == pos + enc_locations(s).len()),
{
    proof {
        assert(b@.len() == b.len());
        lemma_auto_spec_u64_to_from_le_bytes();
        assert forall|s: Seq<LocationView>| #[trigger] starts_at(b@, pos as int, enc_locations(s)) implies starts_at(
            b@,
            pos as int,
            enc_u64(s.len() as u64),
        ) && starts_at(b@, pos + 8, enc_location_list(s)) && s.len() <= b@.len() by {
            lemma_starts_at_split(b@, pos as int, enc_u64(s.len() as u64), enc_location_list(s));
            assert forall|i: int| 0 <= i < s.len() implies enc_location(#[trigger] s[i]).len() >= 1 by {
                assert(enc_u64(s[i].id).len() == 8);
            }
            lemma_enc_list_len(s, |y: LocationView| enc_location(y), 1);
        }
    }
    let (n, start) = match parse_u64_at(b, pos) {
        Some(t) => t,
        None => {
            return None;
        },
    };
    let mut out: Vec<Location> = Vec::new();
    let mut p: usize = start;
    let mut i: u64 = 0;
    proof {
        assert(b@.subrange(start as int, start as int) =~= enc_location_list(Seq::<LocationView>::empty()));
        assert(location_views(out@) =~= Seq::<LocationView>::empty());
        assert forall|s: Seq<LocationView>| #[trigger] starts_at(b@, pos as int, enc_locations(s)) implies s.skip(0)
            == s && s.take(0) == location_views(out@) by {
            assert(s.skip(0) =~= s);
            assert(s.take(0) =~= location_views(out@));
        }
    }
    while i < n
        invariant
            start <= p <= b@.len(),
            pos <= start,
            start == pos + 8,
            b@.subrange(pos as int, start as int) == enc_u64(n),
            out@.len() == i,
            i <= n,
            b@.subrange(start as int, p as int) == enc_location_list(location_views(out@)),
            forall|s: Seq<LocationView>| #[trigger]
                starts_at(b@, pos as int, enc_locations(s)) ==> {
                    &&& n == s.len()
                    &&& location_views(out@) == s.take(i as int)
                    &&& starts_at(b@, p as int, enc_location_list(s.skip(i as int)))
                    &&& p + enc_location_list(s.skip(i as int)).len() == pos + enc_locations(s).len()
                },
        decreases n - i,
    {
        proof {
            assert forall|s: Seq<LocationView>| #[trigger] starts_at(b@, pos as int, enc_locations(s)) implies starts_at(
                b@,
                p as int,
                enc_location(s[i as int]),
            ) && starts_at(b@, p + enc_location(s[i as int]).len(), enc_location_list(s.skip(i + 1))) by {
                lemma_enc_list_skip(s, i as int, |y: LocationView| enc_location(y));
                lemma_starts_at_split(b@, p as int, enc_location(s[i as int]), enc_location_list(s.skip(i + 1)));
            }
        }
        let (x, q) = match parse_location_at(b, p) {
            Some(t) => t,
            None => {
                proof {
                    assert forall|s: Seq<LocationView>| !starts_at(b@, pos as int, #[trigger] enc_locations(s)) by {
                        if starts_at(b@, pos as int, enc_locations(s)) {
                            lemma_enc_list_skip(s, i as int, |y: LocationView| enc_location(y));
                            lemma_starts_at_split(b@, p as int, enc_location(s[i as int]), enc_location_list(s.skip(i + 1)));
                            assert(starts_at(b@, p as int, enc_location(s[i as int])));
                        }
                    }
                }
                return None;
            },
        };
        proof {
            lemma_subrange_concat(b@, start as int, p as int, q as int);
            lemma_enc_list_push(location_views(out@), x@, |y: LocationView| enc_location(y));
        }
        let ghost before = out@;
        out.push(x);
        assert(location_views(out@) =~= location_views(before).push(x@));
        proof {
            assert forall|s: Seq<LocationView>| #[trigger] starts_at(b@, pos as int, enc_locations(s)) implies {
                &&& n == s.len()
                &&& location_views(out@) == s.take(i + 1)
                &&& starts_at(b@, q as int, enc_location_list(s.skip(i + 1)))
                &&& q + enc_location_list(s.skip(i + 1)).len() == pos + enc_locations(s).len()
            } by {
                lemma_enc_list_skip(s, i as int, |y: LocationView| enc_location(y));
                lemma_starts_at_split(b@, p as int, enc_location(s[i as int]), enc_location_list(s.skip(i + 1)));
                assert(starts_at(b@, p as int, enc_location(s[i as int])));
                assert(x@ == s[i as int]);
                assert(s.take(i + 1) =~= s.take(i as int).push(s[i as int]));
            }
        }
        p = q;
        i += 1;
    }
    proof {
        lemma_subrange_concat(b@, pos as int, start as int, p as int);
        assert forall|s: Seq<LocationView>| #[trigger] starts_at(b@, pos as int, enc_locations(s)) implies location_views(out@)
            == s && p == pos + enc_locations(s).len() by {
            assert(s.take(i as int) =~= s);
            assert(s.skip(i as int) =~= Seq::<LocationView>::empty());
        }
    }
    Some((out, p))
}

proof fn lemma_trip_split(b: Seq<u8>, pos: int, v: TripView)
    requires
        starts_at(b, pos, enc_trip(v)),
    ensures
        starts_at(b, pos, enc_u64(v.id)),
        starts_at(b, pos + enc_u64(v.id).len(), enc_str(v.name)),
        starts_at(b, pos + enc_u64(v.id).len() + enc_str(v.name).len(), enc_str(v.start_date)),
        starts_at(b, pos + enc_u64(v.id).len() + enc_str(v.name).len() + enc_str(v.start_date).len(), enc_str(v.end_date)),
        starts_at(b, pos + enc_u64(v.id).len() + enc_str(v.name).len() + enc_str(v.start_date).len() + enc_str(v.end_date).len(), enc_locations(v.destinations)),
        starts_at(b, pos + enc_u64(v.id).len() + enc_str(v.name).len() + enc_str(v.start_date).len() + enc_str(v.end_date).len() + enc_locations(v.destinations).len(), enc_activities(v.activities)),
        starts_at(b, pos + enc_u64(v.id).len() + enc_str(v.name).len() + enc_str(v.start_date).len() + enc_str(v.end_date).len() + enc_locations(v.destinations).len() + enc_activities(v.activities).len(), enc_i64(v.budget)),
        starts_at(b, pos + enc_u64(v.id).len() + enc_str(v.name).len() + enc_str(v.start_date).len() + enc_str(v.end_date).len() + enc_locations(v.destinations).len() + enc_activities(v.activities).len() + enc_i64(v.budget).len(), enc_transportations(v.transportation)),
        enc_trip(v).len() == pos + enc_u64(v.id).len() + enc_str(v.name).len() + enc_str(v.start_date).len() + enc_str(v.end_date).len() + enc_locations(v.destinations).len() + enc_activities(v.activities).len() + enc_i64(v.budget).len() + enc_transportations(v.transportation).len() - pos,
{
    lemma_starts_at_split(b, pos, enc_u64(v.id), enc_str(v.name) + (enc_str(v.start_date) + (enc_str(v.end_date) + (enc_locations(v.destinations) + (enc_activities(v.activities) + (enc_i64(v.budget) + (enc_transportations(v.transportation))))))));
    lemma_starts_at_split(b, pos + enc_u64(v.id).len(), enc_str(v.name), enc_str(v.start_date) + (enc_str(v.end_date) + (enc_locations(v.destinations) + (enc_activities(v.activities) + (enc_i64(v.budget) + (enc_transportations(v.transportation)))))));
    lemma_starts_at_split(b, pos + enc_u64(v.id).len() + enc_str(v.name).len(), enc_str(v.start_date), enc_str(v.end_date) + (enc_locations(v.destinations) + (enc_activities(v.activities) + (enc_i64(v.budget) + (enc_transportations(v.transportation))))));
    lemma_starts_at_split(b, pos + enc_u64(v.id).len() + enc_str(v.name).len() + enc_str(v.start_date).len(), enc_str(v.end_date), enc_locations(v.destinations) + (enc_activities(v.activities) + (enc_i64(v.budget) + (enc_transportations(v.transportation)))));
    lemma_starts_at_split(b, pos + enc_u64(v.id).len() + enc_str(v.name).len() + enc_str(v.start_date).len() + enc_str(v.end_date).len(), enc_locations(v.destinations), enc_activities(v.activities) + (enc_i64(v.budget) + (enc_transportations(v.transportation))));
    lemma_starts_at_split(b, pos + enc_u64(v.id).len() + enc_str(v.name).len() + enc_str(v.start_date).len() + enc_str(v.end_date).len() + enc_locations(v.destinations).len(), enc_activities(v.activities), enc_i64(v.budget) + (enc_transportations(v.transportation)));
    lemma_starts_at_split(b, pos + enc_u64(v.id).len() + enc_str(v.name).len() + enc_str(v.start_date).len() + enc_str(v.end_date).len() + enc_locations(v.destinations).len() + enc_activities(v.activities).len(), enc_i64(v.budget), enc_transportations(v.transportation));
}

#[verifier::rlimit(100)]
#[verifier::spinoff_prover]
fn parse_trip_at(b: &Vec<u8>, pos: usize) -> (r: Option<(Trip, usize)>)
    requires
        pos <= b@.len(),
    ensures
        r matches Some((x, p)) ==> pos <= p <= b@.len() && b@.subrange(pos as int, p as int)
            == enc_trip(x@),
        forall|v: TripView| #[trigger]
            starts_at(b@, pos as int, enc_trip(v)) ==> (r matches Some((x, p)) && x@ == v && p == pos
                + enc_trip(v).len()),
{
    let p0: usize = pos;
    let (id, p1) = match parse_u64_at(b, p0) {
        Some(t) => t,
        None => {
            proof {
                assert forall|v: TripView| !starts_at(b@, pos as int, #[trigger] enc_trip(v)) by {
                    if starts_at(b@, pos as int, enc_trip(v)) {
                        lemma_trip_split(b@, pos as int, v);
                        assert(starts_at(b@, p0 as int, enc_u64(v.id)));
                    }
                }
            }
            return None;
        },
    };
    proof {
        assert forall|v: TripView| #[trigger] starts_at(b@, pos as int, enc_trip(v)) implies id == v.id
            && p1 == pos as int + enc_u64(v.id).len() by {
            lemma_trip_split(b@, pos as int, v);
            assert(starts_at(b@, p0 as int, enc_u64(v.id)));
        }
    }
    let (name, p2) = match parse_str_at(b, p1) {
        Some(t) => t,
        None => {
            proof {
                assert forall|v: TripView| !starts_at(b@, pos as int, #[trigger] enc_trip(v)) by {
                    if starts_at(b@, pos as int, enc_trip(v)) {
                        lemma_trip_split(b@, pos as int, v);
                        assert(starts_at(b@, p1 as int, enc_str(v.name)));
                    }
                }
            }
            return None;
        },
    };
    proof {
        assert forall|v: TripView| #[trigger] starts_at(b@, pos as int, enc_trip(v)) implies name@ == v.name
            && p2 == pos as int + enc_u64(v.id).len() + enc_str(v.name).len() by {
            lemma_trip_split(b@, pos as int, v);
            assert(starts_at(b@, p1 as int, enc_str(v.name)));
        }
    }
    proof {
        lemma_subrange_concat(b@, pos as int, p1 as int, p2 as int);
    }
    let (start_date, p3) = match parse_str_at(b, p2) {
        Some(t) => t,
        None => {
            proof {
                assert forall|v: TripView| !starts_at(b@, pos as int, #[trigger] enc_trip(v)) by {
                    if starts_at(b@, pos as int, enc_trip(v)) {
                        lemma_trip_split(b@, pos as int, v);
                        assert(starts_at(b@, p2 as int, enc_str(v.start_date)));
                    }
                }
            }
            return None;
        },
    };
    proof {
        assert forall|v: TripView| #[trigger] starts_at(b@, pos as int, enc_trip(v)) implies start_date@ == v.start_date
            && p3 == pos as int + enc_u64(v.id).len() + enc_str(v.name).len() + enc_str(v.start_date).len() by {
            lemma_trip_split(b@, pos as int, v);
            assert(starts_at(b@, p2 as int, enc_str(v.start_date)));
        }
    }
    proof {
        lemma_subrange_concat(b@, pos as int, p2 as int, p3 as int);
    }
    let (end_date, p4) = match parse_str_at(b, p3) {
        Some(t) => t,
        None => {
            proof {
                assert forall|v: TripView| !starts_at(b@, pos as int, #[trigger] enc_trip(v)) by {
                    if starts_at(b@, pos as int, enc_trip(v)) {
                        lemma_trip_split(b@, pos as int, v);
                        assert(starts_at(b@, p3 as int, enc_str(v.end_date)));
                    }
                }
            }
            return None;
        },
    };
    proof {
        assert forall|v: TripView| #[trigger] starts_at(b@, pos as int, enc_trip(v)) implies end_date@ == v.end_date
            && p4 == pos as int + enc_u64(v.id).len() + enc_str(v.name).len() + enc_str(v.start_date).len() + enc_str(v.end_date).len() by {
            lemma_trip_split(b@, pos as int, v);
            assert(starts_at(b@, p3 as int, enc_str(v.end_date)));
        }
    }
    proof {
        lemma_subrange_concat(b@, pos as int, p3 as int, p4 as int);
    }
    let (destinations, p5) = match parse_locations_at(b, p4) {
        Some(t) => t,
        None => {
            proof {
                assert forall|v: TripView| !starts_at(b@, pos as int, #[trigger] enc_trip(v)) by {
                    if starts_at(b@, pos as int, enc_trip(v)) {
                        lemma_trip_split(b@, pos as int, v);
                        assert(starts_at(b@, p4 as int, enc_locations(v.destinations)));
                    }
                }
            }
            return None;
        },
    };
    proof {
        assert forall|v: TripView| #[trigger] starts_at(b@, pos as int, enc_trip(v)) implies location_views(destinations@) == v.destinations
            && p5 == pos as int + enc_u64(v.id).len() + enc_str(v.name).len() + enc_str(v.start_date).len() + enc_str(v.end_date).len() + enc_locations(v.destinations).len() by {
            lemma_trip_split(b@, pos as int, v);
            assert(starts_at(b@, p4 as int, enc_locations(v.destinations)));
        }
    }
    proof {
        lemma_subrange_concat(b@, pos as int, p4 as int, p5 as int);
    }
    let (activities, p6) = match parse_activities_at(b, p5) {
        Some(t) => t,
        None => {
            proof {
                assert forall|v: TripView| !starts_at(b@, pos as int, #[trigger] enc_trip(v)) by {
                    if starts_at(b@, pos as int, enc_trip(v)) {
                        lemma_trip_split(b@, pos as int, v);
                        assert(starts_at(b@, p5 as int, enc_activities(v.activities)));
                    }
                }
            }
            return None;
        },
    };
    proof {
        assert forall|v: TripView| #[trigger] starts_at(b@, pos as int, enc_trip(v)) implies activity_views(activities@) == v.activities
            && p6 == pos as int + enc_u64(v.id).len() + enc_str(v.name).len() + enc_str(v.start_date).len() + enc_str(v.end_date).len() + enc_locations(v.destinations).len() + enc_activities(v.activities).len() by {
            lemma_trip_split(b@, pos as int, v);
            assert(starts_at(b@, p5 as int, enc_activities(v.activities)));
        }
    }
    proof {
        lemma_subrange_concat(b@, pos as int, p5 as int, p6 as int);
    }
    let (budget, p7) = match parse_i64_at(b, p6) {
        Some(t) => t,
        None => {
            proof {
                assert forall|v: TripView| !starts_at(b@, pos as int, #[trigger] enc_trip(v)) by {
                    if starts_at(b@, pos as int, enc_trip(v)) {
                        lemma_trip_split(b@, pos as int, v);
                        assert(starts_at(b@, p6 as int, enc_i64(v.budget)));
                    }
                }
            }
            return None;
        },
    };
    proof {
        assert forall|v: TripView| #[trigger] starts_at(b@, pos as int, enc_trip(v)) implies budget == v.budget
            && p7 == pos as int + enc_u64(v.id).len() + enc_str(v.name).len() + enc_str(v.start_date).len() + enc_str(v.end_date).len() + enc_locations(v.destinations).len() + enc_activities(v.activities).len() + enc_i64(v.budget).len() by {
            lemma_trip_split(b@, pos as int, v);
            assert(starts_at(b@, p6 as int, enc_i64(v.budget)));
        }
    }
    proof {
        lemma_subrange_concat(b@, pos as int, p6 as int, p7 as int);
    }
    let (transportation, p8) = match parse_transportations_at(b, p7) {
        Some(t) => t,
        None => {
            proof {
                assert forall|v: TripView| !starts_at(b@, pos as int, #[trigger] enc_trip(v)) by {
                    if starts_at(b@, pos as int, enc_trip(v)) {
                        lemma_trip_split(b@, pos as int, v);
                        assert(starts_at(b@, p7 as int, enc_transportations(v.transportation)));
                    }
                }
            }
            return None;
        },
    };
    proof {
        assert forall|v: TripView| #[trigger] starts_at(b@, pos as int, enc_trip(v)) implies transportation_views(transportation@) == v.transportation
            && p8 == pos as int + enc_u64(v.id).len() + enc_str(v.name).len() + enc_str(v.start_date).len() + enc_str(v.end_date).len() + enc_locations(v.destinations).len() + enc_activities(v.activities).len() + enc_i64(v.budget).len() + enc_transportations(v.transportation).len() by {
            lemma_trip_split(b@, pos as int, v);
            assert(starts_at(b@, p7 as int, enc_transportations(v.transportation)));
        }
    }
    proof {
        lemma_subrange_concat(b@, pos as int, p7 as int, p8 as int);
    }
    let x = Trip { id, name, start_date, end_date, destinations, activities, budget, transportation };
    assert(b@.subrange(pos as int, p8 as int) =~= enc_trip(x@));
    proof {
        assert forall|v: TripView| #[trigger] starts_at(b@, pos as int, enc_trip(v)) implies x@ == v && p8
            == pos + enc_trip(v).len() by {
            lemma_trip_split(b@, pos as int, v);
        }
    }
    Some((x, p8))
}

/// Reads an activity from `b`, which must hold its encoding and nothing else;
/// `None` exactly when it does not.
pub fn parse_activity(b: &Vec<u8>) -> (r: Option<Activity>)
    ensures
        r matches Some(x) ==> enc_activity(x@) == b@,
        forall|v: ActivityView| #[trigger] enc_activity(v) == b@ ==> (r matches Some(x) && x@ == v),
{
    let r = parse_activity_at(b, 0);
    proof {
        assert forall|v: ActivityView| #[trigger] enc_activity(v) == b@ implies starts_at(b@, 0, enc_activity(v)) by {
            assert(b@.subrange(0, b@.len() as int) =~= b@);
        }
    }
    match r {
        Some((x, p)) => {
            if p == b.len() {
                Some(x)
            } else {
                None
            }
        },
        None => None,
    }
}

/// Reads a location from `b`, which must hold its encoding and nothing else;
/// `None` exactly when it does not.
pub fn parse_location(b: &Vec<u8>) -> (r: Option<Location>)
    ensures
        r matches Some(x) ==> enc_location(x@) == b@,
        forall|v: LocationView| #[trigger] enc_location(v) == b@ ==> (r matches Some(x) && x@ == v),
{
    let r = parse_location_at(b, 0);
    proof {
        assert forall|v: LocationView| #[trigger] enc_location(v) == b@ implies starts_at(b@, 0, enc_location(v)) by {
            assert(b@.subrange(0, b@.len() as int) =~= b@);
        }
    }
    match r {
        Some((x, p)) => {
            if p == b.len() {
                Some(x)
            } else {
                None
            }
        },
        None => None,
    }
}

/// Reads a transportation from `b`, which must hold its encoding and nothing else;
/// `None` exactly when it does not.
pub fn parse_transportation(b: &Vec<u8>) -> (r: Option<Transportation>)
    ensures
        r matches Some(x) ==> enc_transportation(x@) == b@,
        forall|v: TransportationView| #[trigger] enc_transportation(v) == b@ ==> (r matches Some(x) && x@ == v),
{
    let r = parse_transportation_at(b, 0);
    proof {
        assert forall|v: TransportationView| #[trigger] enc_transportation(v) == b@ implies starts_at(b@, 0, enc_transportation(v)) by {
            assert(b@.subrange(0, b@.len() as int) =~= b@);
        }
    }
    match r {
        Some((x, p)) => {
            if p == b.len() {
                Some(x)
            } else {
                None
            }
        },
        None => None,
    }
}

/// Reads a trip from `b`, which must hold its encoding and nothing else;
/// `None` exactly when it does not.
pub fn parse_trip(b: &Vec<u8>) -> (r: Option<Trip>)
    ensures
        r matches Some(x) ==> enc_trip(x@) == b@,
        forall|v: TripView| #[trigger] enc_trip(v) == b@ ==> (r matches Some(x) && x@ == v),
{
    let r = parse_trip_at(b, 0);
    proof {
        assert forall|v: TripView| #[trigger] enc_trip(v) == b@ implies starts_at(b@, 0, enc_trip(v)) by {
            assert(b@.subrange(0, b@.len() as int) =~= b@);
        }
    }
    match r {
        Some((x, p)) => {
            if p == b.len() {
                Some(x)
            } else {
                None
            }
        },
        None => None,
    }
}

} // verus!
