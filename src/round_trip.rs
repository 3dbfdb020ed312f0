//! Decoding a freshly rewritten pack gives back the layout it was written
//! with, so a second rewrite changes no offset or size.
use vstd::prelude::*;

use crate::bytes::{lemma_u32_round_trip, pad_nul, u32_at, u32_le, zeros};
use crate::erf::{
    bytes_available, data_bytes, decoded_resource, entry_pos, erf_body_ok, erf_bytes,
    erf_magic_ok, erf_metadata_of, header_bytes, header_pieces, key_id, key_in_bounds,
    key_list_offset, key_name_width, key_pos, key_record, keys_bytes, layout_fits, layout_offset,
    lemma_sizes_sum_mono, lemma_sizes_sum_step, lemma_strings_size_ge, lemma_strings_size_ge_elem,
    list_bytes, list_entry, loc_strings_from, new_offset_of, new_size_of, pending_size,
    recomputed_metadata, resource_list_offset, restamped, rewrite_ok, rewritten, sizes_sum,
    string_record, strings_bytes, strings_size, strings_view, Erf, ErfResource, LocalizedString,
};

verus! {

proof fn lemma_flatten_fixed(pieces: Seq<Seq<u8>>, w: nat)
    requires
        forall|i: int| 0 <= i < pieces.len() ==> (#[trigger] pieces[i]).len() == w,
    ensures
        pieces.flatten().len() == pieces.len() * w,
        forall|i: int|
            0 <= i < pieces.len() ==> pieces.flatten().subrange(i * w, i * w + w) == #[trigger] pieces[i],
    decreases pieces.len(),
{
    if pieces.len() > 0 {
        let p = pieces.drop_last();
        let x = pieces.last();
        lemma_flatten_fixed(p, w);
        assert(pieces =~= p.push(x));
        p.lemma_flatten_push(x);
        let f = pieces.flatten();
        assert(f == p.flatten() + x);
        assert(p.len() * w + w == pieces.len() * w) by (nonlinear_arith)
            requires
                p.len() + 1 == pieces.len(),
        ;
        assert forall|i: int| 0 <= i < pieces.len() implies f.subrange(i * w, i * w + w)
            == #[trigger] pieces[i] by {
            if i < p.len() {
                assert(i * w + w <= p.len() * w) by (nonlinear_arith)
                    requires
                        i < p.len(),
                        0 <= i,
                ;
                assert(0 <= i * w) by (nonlinear_arith)
                    requires
                        0 <= i,
                ;
                assert(f.subrange(i * w, i * w + w) =~= p.flatten().subrange(i * w, i * w + w));
                assert(pieces[i] == p[i]);
            } else {
                assert(f.subrange(i * w, i * w + w) =~= x);
            }
        }
    }
}

proof fn lemma_strings_bytes_len(s: Seq<LocalizedString>)
    requires
        forall|i: int| 0 <= i < s.len() ==> (#[trigger] s[i]).string@.len() <= 0xFFFF_FFFF,
    ensures
        strings_bytes(s).len() == strings_size(s),
    decreases s.len(),
{
    if s.len() > 0 {
        let p = s.drop_last();
        lemma_strings_bytes_len(p);
        let f = |x: LocalizedString| string_record(x);
        assert(s.map_values(f) =~= p.map_values(f).push(string_record(s.last())));
        p.map_values(f).lemma_flatten_push(string_record(s.last()));
    }
}

proof fn lemma_strings_parse(d: Seq<u8>, p: int, s: Seq<LocalizedString>)
    requires
        0 <= p,
        p + strings_bytes(s).len() <= d.len(),
        d.subrange(p, p + strings_bytes(s).len()) == strings_bytes(s),
        forall|i: int| 0 <= i < s.len() ==> (#[trigger] s[i]).string@.len() <= 0xFFFF_FFFF,
    ensures
        loc_strings_from(d, p, s.len()) == Some(strings_view(s)),
    decreases s.len(),
{
    let f = |x: LocalizedString| string_record(x);
    if s.len() == 0 {
        assert(strings_view(s) =~= Seq::<(u32, Seq<u8>)>::empty());
    } else {
        let x = s[0];
        let rest = s.drop_first();
        let len = x.string@.len();
        assert(s.map_values(f).drop_first() =~= rest.map_values(f));
        assert(strings_bytes(s) == string_record(x) + strings_bytes(rest));
        lemma_strings_bytes_len(rest);
        let whole = strings_bytes(s);
        let rec = string_record(x);
        assert(rec.len() == 8 + len);
        assert(d.subrange(p, p + 4) =~= u32_le(x.language_id)) by {
            assert(d.subrange(p, p + 4) =~= whole.subrange(0, 4));
            assert(whole.subrange(0, 4) =~= rec.subrange(0, 4));
        }
        assert(d.subrange(p + 4, p + 8) =~= u32_le(len as u32)) by {
            assert(d.subrange(p + 4, p + 8) =~= whole.subrange(4, 8));
            assert(whole.subrange(4, 8) =~= rec.subrange(4, 8));
        }
        lemma_u32_round_trip(d, p, x.language_id);
        lemma_u32_round_trip(d, p + 4, len as u32);
        assert(d.subrange(p + 8, p + 8 + len) =~= x.string@) by {
            assert(d.subrange(p + 8, p + 8 + len) =~= whole.subrange(8, 8 + len as int));
            assert(whole.subrange(8, 8 + len as int) =~= rec.subrange(8, 8 + len as int));
        }
        let q = p + 8 + len;
        assert(d.subrange(q, q + strings_bytes(rest).len()) =~= strings_bytes(rest)) by {
            assert(d.subrange(q, q + strings_bytes(rest).len()) =~= whole.subrange(
                8 + len as int,
                whole.len() as int,
            ));
        }
        assert forall|i: int| 0 <= i < rest.len() implies (#[trigger] rest[i]).string@.len()
            <= 0xFFFF_FFFF by {
            assert(rest[i] == s[i + 1]);
        }
        lemma_strings_parse(d, q, rest);
        assert(strings_view(s) =~= seq![(x.language_id, x.string@)] + strings_view(rest));
    }
}

proof fn lemma_strings_size_view(a: Seq<LocalizedString>, b: Seq<LocalizedString>)
    requires
        strings_view(a) == strings_view(b),
    ensures
        strings_size(a) == strings_size(b),
    decreases a.len(),
{
    assert(strings_view(a).len() == a.len());
    assert(strings_view(b).len() == b.len());
    if a.len() > 0 {
        assert(strings_view(a.drop_last()) =~= strings_view(a).drop_last());
        assert(strings_view(b.drop_last()) =~= strings_view(b).drop_last());
        lemma_strings_size_view(a.drop_last(), b.drop_last());
        assert(strings_view(a)[a.len() - 1] == strings_view(b)[b.len() - 1]);
    }
}

proof fn lemma_sizes_sum_pointwise(a: Seq<ErfResource>, b: Seq<ErfResource>, i: int)
    requires
        a.len() == b.len(),
        0 <= i <= a.len(),
        forall|j: int| 0 <= j < a.len() ==> pending_size(#[trigger] a[j]) == pending_size(b[j]),
    ensures
        sizes_sum(a.subrange(0, i)) == sizes_sum(b.subrange(0, i)),
    decreases i,
{
    if i > 0 {
        lemma_sizes_sum_pointwise(a, b, i - 1);
        assert(a.subrange(0, i).drop_last() =~= a.subrange(0, i - 1));
        assert(b.subrange(0, i).drop_last() =~= b.subrange(0, i - 1));
    }
}

/// Names fit their field and every text its 32-bit length.
spec fn encodable(e: Erf) -> bool {
    &&& forall|i: int|
        0 <= i < e.resources@.len() ==> (#[trigger] e.resources@[i]).reference@.len()
            <= key_name_width(e.version@)
    &&& forall|i: int|
        0 <= i < e.localised_strings@.len() ==> (#[trigger] e.localised_strings@[i]).string@.len()
            <= 0xFFFF_FFFF
    &&& e.metadata.offset_to_localized_string >= 44
}

proof fn lemma_pack_windows(
    head: Seq<u8>,
    pad: Seq<u8>,
    text: Seq<u8>,
    keys: Seq<u8>,
    list: Seq<u8>,
    rest: Seq<u8>,
)
    ensures
        ({
            let s = head + pad + text + keys + list + rest;
            let end_pad = head.len() + pad.len();
            let end_text = end_pad + text.len();
            let end_keys = end_text + keys.len();
            let end_list = end_keys + list.len();
            &&& s.len() == end_list + rest.len()
            &&& s.subrange(0, head.len() as int) == head
            &&& s.subrange(end_pad as int, end_text as int) == text
            &&& s.subrange(end_text as int, end_keys as int) == keys
            &&& s.subrange(end_keys as int, end_list as int) == list
        }),
{
    let s = head + pad + text + keys + list + rest;
    let end_pad = head.len() + pad.len();
    let end_text = end_pad + text.len();
    let end_keys = end_text + keys.len();
    let end_list = end_keys + list.len();
    assert(s.subrange(0, head.len() as int) =~= head);
    assert(s.subrange(end_pad as int, end_text as int) =~= text);
    assert(s.subrange(end_text as int, end_keys as int) =~= keys);
    assert(s.subrange(end_keys as int, end_list as int) =~= list);
}

proof fn lemma_window_nested(s: Seq<u8>, p: int, q: int, r: int, t: int)
    requires
        0 <= p <= q <= s.len(),
        0 <= r <= t <= q - p,
    ensures
        s.subrange(p, q).subrange(r, t) == s.subrange(p + r, p + t),
{
    assert(s.subrange(p, q).subrange(r, t) =~= s.subrange(p + r, p + t));
}

proof fn lemma_bytes_layout(e: Erf, src: Seq<u8>)
    requires
        encodable(e),
    ensures
        ({
            let b = erf_bytes(e, src);
            let n = e.resources@.len();
            let w = key_name_width(e.version@);
            let k0 = e.metadata.offset_to_localized_string + strings_size(e.localised_strings@);
            let l0 = k0 + n * (w + 8);
            &&& b.len() >= l0 + n * 8
            &&& b.subrange(0, 44) == header_bytes(e)
            &&& b.subrange(e.metadata.offset_to_localized_string as int, k0) == strings_bytes(
                e.localised_strings@,
            )
            &&& forall|i: int|
                0 <= i < n ==> b.subrange(k0 + i * (w + 8), k0 + i * (w + 8) + (w + 8))
                    == key_record(#[trigger] e.resources@[i], w)
            &&& forall|j: int|
                0 <= j < n ==> #[trigger] b.subrange(l0 + j * 8, l0 + j * 8 + 8) == list_entry(
                    e.resources@,
                    j,
                )
        }),
{
    let b = erf_bytes(e, src);
    let rs = e.resources@;
    let n = rs.len();
    let w = key_name_width(e.version@);
    let loc = e.metadata.offset_to_localized_string as int;
    let strs = e.localised_strings@;
    let hb = header_bytes(e);
    let z = zeros((loc - 44) as nat);
    let sb = strings_bytes(strs);
    let kb = keys_bytes(rs, w);
    let lb = list_bytes(rs);
    let db = data_bytes(rs, src);
    lemma_strings_bytes_len(strs);
    let kpieces = rs.map_values(|r: ErfResource| key_record(r, w));
    assert forall|i: int| 0 <= i < kpieces.len() implies (#[trigger] kpieces[i]).len() == w + 8 by {
        assert(kpieces[i] == key_record(rs[i], w));
        assert(rs[i].reference@.len() <= w);
    }
    lemma_flatten_fixed(kpieces, w + 8);
    let lpieces = Seq::new(n, |j: int| list_entry(rs, j));
    assert forall|j: int| 0 <= j < lpieces.len() implies (#[trigger] lpieces[j]).len() == 8 by {
        assert(lpieces[j] == list_entry(rs, j));
    }
    lemma_flatten_fixed(lpieces, 8);
    lemma_flatten_fixed(header_pieces(e), 4);
    assert(hb.len() == 44);
    lemma_pack_windows(hb, z, sb, kb, lb, db);
    assert(b == hb + z + sb + kb + lb + db);
    let k0 = loc + sb.len();
    let l0 = k0 + kb.len();
    assert forall|i: int| 0 <= i < n implies b.subrange(k0 + i * (w + 8), k0 + i * (w + 8) + (w + 8))
        == key_record(#[trigger] rs[i], w) by {
        assert(0 <= i * (w + 8)) by (nonlinear_arith)
            requires
                0 <= i,
        ;
        assert(i * (w + 8) + (w + 8) <= n * (w + 8)) by (nonlinear_arith)
            requires
                i < n,
        ;
        assert(kpieces[i] == key_record(rs[i], w));
        lemma_window_nested(b, k0, l0, i * (w + 8), i * (w + 8) + (w + 8));
    }
    assert forall|j: int| 0 <= j < n implies #[trigger] b.subrange(l0 + j * 8, l0 + j * 8 + 8)
        == list_entry(rs, j) by {
        assert(lpieces[j] == list_entry(rs, j));
        lemma_window_nested(b, l0, l0 + lb.len(), j * 8, j * 8 + 8);
    }
}

proof fn lemma_header_fields(e: Erf, b: Seq<u8>)
    requires
        b.len() >= 44,
        b.subrange(0, 44) == header_bytes(e),
    ensures
        erf_magic_ok(b),
        erf_metadata_of(b) == e.metadata,
        b.subrange(4, 8) == e.version@,
{
    let m = e.metadata;
    let p = header_pieces(e);
    lemma_flatten_fixed(p, 4);
    let hb = header_bytes(e);
    lemma_window_nested(b, 0, 44, 0, 4);
    assert(hb.subrange(0, 4) == p[0]);
    lemma_window_nested(b, 0, 44, 4, 8);
    assert(hb.subrange(4, 8) == p[1]);
    lemma_window_nested(b, 0, 44, 8, 12);
    assert(hb.subrange(8, 12) == p[2]);
    lemma_window_nested(b, 0, 44, 12, 16);
    assert(hb.subrange(12, 16) == p[3]);
    lemma_window_nested(b, 0, 44, 16, 20);
    assert(hb.subrange(16, 20) == p[4]);
    lemma_window_nested(b, 0, 44, 20, 24);
    assert(hb.subrange(20, 24) == p[5]);
    lemma_window_nested(b, 0, 44, 24, 28);
    assert(hb.subrange(24, 28) == p[6]);
    lemma_window_nested(b, 0, 44, 28, 32);
    assert(hb.subrange(28, 32) == p[7]);
    lemma_window_nested(b, 0, 44, 32, 36);
    assert(hb.subrange(32, 36) == p[8]);
    lemma_window_nested(b, 0, 44, 36, 40);
    assert(hb.subrange(36, 40) == p[9]);
    lemma_window_nested(b, 0, 44, 40, 44);
    assert(hb.subrange(40, 44) == p[10]);
    assert(b[0] == b.subrange(0, 4)[0] && b[1] == b.subrange(0, 4)[1] && b[2] == b.subrange(0, 4)[2]
        && b[3] == b.subrange(0, 4)[3]);
    lemma_u32_round_trip(b, 8, m.localized_string_count);
    lemma_u32_round_trip(b, 12, m.localized_string_size);
    lemma_u32_round_trip(b, 16, m.entry_count);
    lemma_u32_round_trip(b, 20, m.offset_to_localized_string);
    lemma_u32_round_trip(b, 24, m.offset_to_key_list);
    lemma_u32_round_trip(b, 28, m.offset_to_resource_list);
    lemma_u32_round_trip(b, 32, m.build_year);
    lemma_u32_round_trip(b, 36, m.build_day);
    lemma_u32_round_trip(b, 40, m.description_str_ref);
}

proof fn lemma_key_fields(b: Seq<u8>, kp: int, r: ErfResource, w: nat)
    requires
        0 <= kp,
        kp + w + 8 <= b.len(),
        r.reference@.len() <= w,
        b.subrange(kp, kp + w + 8) == key_record(r, w),
    ensures
        u32_at(b, kp + w) == r.id,
{
    let rec = key_record(r, w);
    assert(pad_nul(r.reference@, w).len() == w);
    assert(b.subrange(kp + w, kp + w + 4) =~= rec.subrange(w as int, (w + 4) as int));
    assert(rec.subrange(w as int, (w + 4) as int) =~= u32_le(r.id));
    lemma_u32_round_trip(b, kp + w, r.id);
}

proof fn lemma_entry_fields(b: Seq<u8>, ep: int, rs: Seq<ErfResource>, i: int)
    requires
        0 <= ep,
        ep + 8 <= b.len(),
        0 <= i < rs.len(),
        forall|a: int, c: int|
            0 <= a < rs.len() && 0 <= c < rs.len() && a != c ==> #[trigger] rs[a].id
                != #[trigger] rs[c].id,
        b.subrange(ep, ep + 8) == list_entry(rs, rs[i].id as int),
    ensures
        u32_at(b, ep) == new_offset_of(rs[i]),
        u32_at(b, ep + 4) == new_size_of(rs[i]),
{
    let id = rs[i].id;
    assert(list_entry(rs, id as int) == u32_le(new_offset_of(rs[i])) + u32_le(new_size_of(rs[i])))
        by {
        assert(exists|c: int| 0 <= c < rs.len() && rs[c].id == id);
        let c = choose|c: int| 0 <= c < rs.len() && rs[c].id == id;
        if c != i {
            assert(rs[c].id != rs[i].id);
        }
    }
    let e = list_entry(rs, id as int);
    assert(b.subrange(ep, ep + 4) =~= e.subrange(0, 4));
    assert(b.subrange(ep + 4, ep + 8) =~= e.subrange(4, 8));
    assert(e.subrange(0, 4) =~= u32_le(new_offset_of(rs[i])));
    assert(e.subrange(4, 8) =~= u32_le(new_size_of(rs[i])));
    lemma_u32_round_trip(b, ep, new_offset_of(rs[i]));
    lemma_u32_round_trip(b, ep + 4, new_size_of(rs[i]));
}

/// Identifiers are distinct positions of the resource list.
spec fn ids_ok(e: Erf) -> bool {
    &&& forall|i: int| 0 <= i < e.resources@.len() ==> (#[trigger] e.resources@[i]).id < e.resources@.len()
    &&& forall|a: int, c: int|
        0 <= a < e.resources@.len() && 0 <= c < e.resources@.len() && a != c
            ==> #[trigger] e.resources@[a].id != #[trigger] e.resources@[c].id
}

/// The header's counts and offsets describe the pack's own contents.
spec fn header_consistent(e: Erf) -> bool {
    let n = e.resources@.len();
    let k0 = e.metadata.offset_to_localized_string + strings_size(e.localised_strings@);
    &&& e.metadata.localized_string_count == e.localised_strings@.len()
    &&& e.metadata.entry_count == n
    &&& e.metadata.offset_to_key_list == k0
    &&& e.metadata.offset_to_resource_list == k0 + n * (key_name_width(e.version@) + 8)
}

proof fn lemma_encoded_decodes(e: Erf, src: Seq<u8>)
    requires
        encodable(e),
        ids_ok(e),
        header_consistent(e),
    ensures
        ({
            let b = erf_bytes(e, src);
            let m = e.metadata;
            &&& erf_magic_ok(b)
            &&& b.len() >= 44
            &&& erf_body_ok(b)
            &&& erf_metadata_of(b) == m
            &&& b.subrange(4, 8) == e.version@
            &&& loc_strings_from(b, m.offset_to_localized_string as int, m.localized_string_count as nat)
                == Some(strings_view(e.localised_strings@))
            &&& forall|i: int|
                0 <= i < e.resources@.len() ==> {
                    &&& #[trigger] key_in_bounds(b, m, e.version@, i)
                    &&& key_id(b, m, e.version@, i) == e.resources@[i].id
                    &&& u32_at(b, entry_pos(m, e.resources@[i].id)) == new_offset_of(e.resources@[i])
                    &&& u32_at(b, entry_pos(m, e.resources@[i].id) + 4) == new_size_of(
                        e.resources@[i],
                    )
                }
        }),
{
    let b = erf_bytes(e, src);
    let m = e.metadata;
    let rs = e.resources@;
    let n = rs.len();
    let w = key_name_width(e.version@);
    let loc = m.offset_to_localized_string as int;
    let strs = e.localised_strings@;
    lemma_bytes_layout(e, src);
    lemma_header_fields(e, b);
    let k0 = loc + strings_size(strs);
    let l0 = k0 + n * (w + 8);
    lemma_strings_bytes_len(strs);
    lemma_strings_parse(b, loc, strs);
    assert forall|i: int| 0 <= i < n implies {
        &&& #[trigger] key_in_bounds(b, m, e.version@, i)
        &&& key_id(b, m, e.version@, i) == rs[i].id
        &&& u32_at(b, entry_pos(m, rs[i].id)) == new_offset_of(rs[i])
        &&& u32_at(b, entry_pos(m, rs[i].id) + 4) == new_size_of(rs[i])
    } by {
        lemma_key_decodes(e, src, i);
    }
}

proof fn lemma_key_decodes(e: Erf, src: Seq<u8>, i: int)
    requires
        encodable(e),
        ids_ok(e),
        header_consistent(e),
        0 <= i < e.resources@.len(),
    ensures
        ({
            let b = erf_bytes(e, src);
            let m = e.metadata;
            let rs = e.resources@;
            &&& key_in_bounds(b, m, e.version@, i)
            &&& key_id(b, m, e.version@, i) == rs[i].id
            &&& u32_at(b, entry_pos(m, rs[i].id)) == new_offset_of(rs[i])
            &&& u32_at(b, entry_pos(m, rs[i].id) + 4) == new_size_of(rs[i])
        }),
{
    let b = erf_bytes(e, src);
    let m = e.metadata;
    let rs = e.resources@;
    let n = rs.len();
    let w = key_name_width(e.version@);
    let loc = m.offset_to_localized_string as int;
    let strs = e.localised_strings@;
    lemma_bytes_layout(e, src);
    let k0 = loc + strings_size(strs);
    let l0 = k0 + n * (w + 8);
    let kp = key_pos(m, e.version@, i);
    assert(kp == k0 + i * (w + 8));
    assert(0 <= i * (w + 8)) by (nonlinear_arith)
        requires
            0 <= i,
    ;
    assert(i * (w + 8) + (w + 8) <= n * (w + 8)) by (nonlinear_arith)
        requires
            i < n,
    ;
    assert(rs[i].reference@.len() <= w);
    assert(b.subrange(k0 + i * (w + 8), k0 + i * (w + 8) + (w + 8)) == key_record(rs[i], w));
    lemma_key_fields(b, kp, rs[i], w);
    let id = rs[i].id;
    assert(id < n);
    let ep = l0 + id * 8;
    assert(entry_pos(m, id) == ep);
    assert(b.subrange(l0 + id * 8, l0 + id * 8 + 8) == list_entry(rs, id as int));
    lemma_entry_fields(b, ep, rs, i);
}

/// Rewriting reaches a fixed point: a freshly rewritten pack decodes, and the
/// decoded pack declares the header fields the rewrite wrote, holds every
/// resource at the offset and size the rewrite gave it, and recomputing its
/// layout yields those same header fields, offsets and sizes again.
pub proof fn lemma_rewrite_fixed_point(
    new: Erf,
    old: Erf,
    stamp: Option<(u32, u32)>,
    src: Seq<u8>,
    decoded: Erf,
)
    requires
        rewritten(new, old, stamp),
        rewrite_ok(old),
        layout_fits(old),
        bytes_available(old, src),
        decoded.decoded_from(erf_bytes(new, src)),
    ensures
        erf_magic_ok(erf_bytes(new, src)),
        erf_bytes(new, src).len() >= 44,
        erf_body_ok(erf_bytes(new, src)),
        decoded.metadata == new.metadata,
        recomputed_metadata(decoded) == new.metadata,
        decoded.resources@.len() == new.resources@.len(),
        forall|i: int|
            0 <= i < decoded.resources@.len() ==> {
                &&& (#[trigger] decoded.resources@[i]).metadata.offset == new_offset_of(
                    new.resources@[i],
                )
                &&& decoded.resources@[i].metadata.size == new_size_of(new.resources@[i])
                &&& layout_offset(decoded, i) == new_offset_of(new.resources@[i])
                &&& pending_size(decoded.resources@[i]) == new_size_of(new.resources@[i])
            },
{
    let b = erf_bytes(new, src);
    lemma_rewritten_encodable(new, old, stamp);
    lemma_encoded_decodes(new, src);
    lemma_decoded_layout(new, old, stamp, b, decoded);
}

proof fn lemma_rewritten_encodable(new: Erf, old: Erf, stamp: Option<(u32, u32)>)
    requires
        rewritten(new, old, stamp),
        rewrite_ok(old),
        layout_fits(old),
    ensures
        encodable(new),
        ids_ok(new),
        header_consistent(new),
        forall|i: int|
            0 <= i < new.resources@.len() ==> restamped(
                #[trigger] new.resources@[i],
                old.resources@[i],
                layout_offset(old, i),
            ),
{
    let rs = new.resources@;
    let ors = old.resources@;
    let n = rs.len();
    let strs = new.localised_strings@;
    lemma_sizes_sum_mono(ors, 0, n as int);
    assert(ors.subrange(0, n as int) =~= ors);
    assert(forall|i: int| 0 <= i < n ==> restamped(#[trigger] rs[i], ors[i], layout_offset(old, i)));
    assert forall|i: int| 0 <= i < strs.len() implies (#[trigger] strs[i]).string@.len()
        <= 0xFFFF_FFFF by {
        lemma_strings_size_ge_elem(strs, i);
    }
    assert forall|i: int| 0 <= i < n implies (#[trigger] rs[i]).reference@.len() <= key_name_width(
        new.version@,
    ) && rs[i].id < n by {
        assert(ors[i].reference@.len() <= key_name_width(old.version@));
        assert(ors[i].id < ors.len());
    }
    assert forall|a: int, c: int| 0 <= a < n && 0 <= c < n && a != c implies #[trigger] rs[a].id
        != #[trigger] rs[c].id by {
        assert(ors[a].id != ors[c].id);
    }
    lemma_strings_size_ge(strs);
    let w = key_name_width(old.version@);
    assert(n * (w + 8) >= n) by (nonlinear_arith);
    let rm = recomputed_metadata(old);
    assert(new.metadata.localized_string_count == rm.localized_string_count);
    assert(new.metadata.entry_count == rm.entry_count);
    assert(new.metadata.offset_to_key_list == rm.offset_to_key_list);
    assert(new.metadata.offset_to_resource_list == rm.offset_to_resource_list);
    assert(new.metadata.offset_to_localized_string == old.metadata.offset_to_localized_string);
}

proof fn lemma_decoded_layout(
    new: Erf,
    old: Erf,
    stamp: Option<(u32, u32)>,
    b: Seq<u8>,
    decoded: Erf,
)
    requires
        rewritten(new, old, stamp),
        layout_fits(old),
        forall|i: int|
            0 <= i < new.resources@.len() ==> restamped(
                #[trigger] new.resources@[i],
                old.resources@[i],
                layout_offset(old, i),
            ),
        decoded.decoded_from(b),
        erf_metadata_of(b) == new.metadata,
        b.subrange(4, 8) == new.version@,
        loc_strings_from(
            b,
            new.metadata.offset_to_localized_string as int,
            new.metadata.localized_string_count as nat,
        ) == Some(strings_view(new.localised_strings@)),
        forall|i: int|
            0 <= i < new.resources@.len() ==> {
                &&& #[trigger] key_in_bounds(b, new.metadata, new.version@, i)
                &&& key_id(b, new.metadata, new.version@, i) == new.resources@[i].id
                &&& u32_at(b, entry_pos(new.metadata, new.resources@[i].id)) == new_offset_of(
                    new.resources@[i],
                )
                &&& u32_at(b, entry_pos(new.metadata, new.resources@[i].id) + 4) == new_size_of(
                    new.resources@[i],
                )
            },
    ensures
        decoded.metadata == new.metadata,
        recomputed_metadata(decoded) == new.metadata,
        decoded.resources@.len() == new.resources@.len(),
        forall|i: int|
            0 <= i < decoded.resources@.len() ==> {
                &&& (#[trigger] decoded.resources@[i]).metadata.offset == new_offset_of(
                    new.resources@[i],
                )
                &&& decoded.resources@[i].metadata.size == new_size_of(new.resources@[i])
                &&& layout_offset(decoded, i) == new_offset_of(new.resources@[i])
                &&& pending_size(decoded.resources@[i]) == new_size_of(new.resources@[i])
            },
{
    let m = new.metadata;
    let rs = new.resources@;
    let ors = old.resources@;
    let n = rs.len();
    let strs = new.localised_strings@;
    let drs = decoded.resources@;
    assert(decoded.version@ == new.version@);
    lemma_strings_size_view(decoded.localised_strings@, strs);
    assert(decoded.localised_strings@.len() == strs.len()) by {
        assert(strings_view(decoded.localised_strings@).len() == decoded.localised_strings@.len());
        assert(strings_view(strs).len() == strs.len());
    }
    lemma_sizes_sum_mono(ors, 0, n as int);
    assert(ors.subrange(0, n as int) =~= ors);
    assert forall|i: int| 0 <= i < n implies pending_size(#[trigger] drs[i]) == pending_size(ors[i])
        && drs[i].metadata.offset == new_offset_of(rs[i]) && drs[i].metadata.size == new_size_of(
        rs[i],
    ) by {
        assert(decoded_resource(drs[i], b, m, decoded.version@, i));
        assert(key_in_bounds(b, m, new.version@, i));
        assert(restamped(rs[i], ors[i], layout_offset(old, i)));
        lemma_sizes_sum_mono(ors, i, n as int);
        lemma_sizes_sum_mono(ors, i + 1, n as int);
        lemma_sizes_sum_step(ors, i);
    }
    assert forall|i: int| 0 <= i < n implies layout_offset(decoded, i) == new_offset_of(
        #[trigger] rs[i],
    ) by {
        assert(restamped(rs[i], ors[i], layout_offset(old, i)));
        lemma_sizes_sum_pointwise(drs, ors, i);
        lemma_sizes_sum_mono(ors, i, n as int);
    }
}

} // verus!
