use vstd::prelude::*;
use vstd::string::StringSliceAdditionalSpecFns;
use crate::errors::StoreError;
use crate::store::{bytes_eq, insert, lookup, unique_keys, CredentialRecord, MfaDeviceEntry, Store};
use crate::timestamp::{parse_rfc3339, render_rfc3339, spec_rfc3339};

verus! {

// ------------------------------------------------------------------
// The rendered document, byte for byte.
// ------------------------------------------------------------------

/// The bytes of a literal piece of the document.
pub open spec fn lit(s: &str) -> Seq<u8> {
    s.spec_bytes()
}

/// Lowercase hexadecimal digit character for `v < 16`.
pub open spec fn spec_hex_digit(v: u8) -> u8 {
    if v < 10 {
        (48 + v) as u8
    } else {
        (87 + v) as u8
    }
}

/// How one byte of a string value is written: quotes and backslashes
/// are escaped, control bytes are written as `\u00XX`, and everything
/// else stands as itself.
pub open spec fn spec_escape_byte(b: u8) -> Seq<u8> {
    if b == 34 {
        seq![92u8, 34u8]
    } else if b == 92 {
        seq![92u8, 92u8]
    } else if b < 32 {
        seq![92u8, 117u8, 48u8, 48u8, spec_hex_digit(b / 16), spec_hex_digit(b % 16)]
    } else {
        seq![b]
    }
}

/// A string value's content, escaped byte by byte.
pub open spec fn spec_escape(s: Seq<u8>) -> Seq<u8>
    decreases s.len(),
{
    if s.len() == 0 {
        Seq::empty()
    } else {
        spec_escape(s.drop_last()) + spec_escape_byte(s.last())
    }
}

/// A quoted, escaped string value.
pub open spec fn spec_render_str(s: Seq<u8>) -> Seq<u8> {
    seq![34u8] + spec_escape(s) + seq![34u8]
}

/// One credential record as an object; optional fields are omitted
/// when absent, never written as placeholders.
pub open spec fn spec_render_record(r: CredentialRecord) -> Seq<u8> {
    lit("{\"access-key-id\":") + spec_render_str(r.access_key_id@) + lit(
        ",\"secret-access-key\":",
    ) + spec_render_str(r.secret_access_key@) + (match r.session_token {
        Some(t) => lit(",\"session-token\":") + spec_render_str(t@),
        None => Seq::empty(),
    }) + (match r.expiration {
        Some(e) => lit(",\"expiration\":\"") + spec_rfc3339(e) + lit("\""),
        None => Seq::empty(),
    }) + lit("}")
}

/// One registered device as a tagged object.
pub open spec fn spec_render_device(d: MfaDeviceEntry) -> Seq<u8> {
    match d {
        MfaDeviceEntry::HardwareOathToken { account_name } => lit("{\"ykoath\":{\"name\":")
            + spec_render_str(account_name@) + lit("}}"),
    }
}

/// The members of the credentials section, comma separated.
pub open spec fn spec_render_creds(s: Seq<(Vec<u8>, CredentialRecord)>) -> Seq<u8>
    decreases s.len(),
{
    if s.len() == 0 {
        Seq::empty()
    } else {
        let e = spec_render_str(s.last().0@) + lit(":") + spec_render_record(s.last().1);
        if s.len() == 1 {
            e
        } else {
            spec_render_creds(s.drop_last()) + lit(",") + e
        }
    }
}

/// The members of the devices section, comma separated.
pub open spec fn spec_render_devs(s: Seq<(Vec<u8>, MfaDeviceEntry)>) -> Seq<u8>
    decreases s.len(),
{
    if s.len() == 0 {
        Seq::empty()
    } else {
        let e = spec_render_str(s.last().0@) + lit(":") + spec_render_device(s.last().1);
        if s.len() == 1 {
            e
        } else {
            spec_render_devs(s.drop_last()) + lit(",") + e
        }
    }
}

/// The whole persisted document.
pub open spec fn spec_render_store(st: Store) -> Seq<u8> {
    lit("{\"credentials\":{") + spec_render_creds(st.credentials@) + lit("},\"mfa-devices\":{")
        + spec_render_devs(st.mfa_devices@) + lit("}}")
}

// ------------------------------------------------------------------
// The renderer.
// ------------------------------------------------------------------

/// Appends a literal piece.
fn push_lit(out: &mut Vec<u8>, s: &str)
    ensures
        final(out)@ == old(out)@ + lit(s),
{
    out.extend_from_slice(s.as_bytes());
}

/// Appends a quoted, escaped string value.
fn push_str_value(out: &mut Vec<u8>, s: &Vec<u8>)
    ensures
        final(out)@ == old(out)@ + spec_render_str(s@),
{
    out.push(34);
    let ghost base = out@;
    let mut i: usize = 0;
    while i < s.len()
        invariant
            i <= s@.len(),
            out@ == base + spec_escape(s@.take(i as int)),
        decreases s@.len() - i,
    {
        let b = s[i];
        proof {
            assert(s@.take(i as int + 1).drop_last() =~= s@.take(i as int));
            assert(s@.take(i as int + 1).last() == s@[i as int]);
        }
        if b == 34 {
            out.push(92);
            out.push(34);
        } else if b == 92 {
            out.push(92);
            out.push(92);
        } else if b < 32 {
            out.push(92);
            out.push(117);
            out.push(48);
            out.push(48);
            let hi = b / 16;
            let lo = b % 16;
            out.push(if hi < 10 { 48 + hi } else { 87 + hi });
            out.push(if lo < 10 { 48 + lo } else { 87 + lo });
        } else {
            out.push(b);
        }
        proof {
            assert(out@ =~= base + spec_escape(s@.take(i as int + 1)));
        }
        i += 1;
    }
    proof {
        assert(s@.take(s@.len() as int) =~= s@);
    }
    out.push(34);
    proof {
        assert(out@ =~= old(out)@ + spec_render_str(s@));
    }
}

/// Appends one credential record.
fn push_record(out: &mut Vec<u8>, r: &CredentialRecord)
    requires
        r.well_formed(),
    ensures
        final(out)@ == old(out)@ + spec_render_record(*r),
{
    push_lit(out, "{\"access-key-id\":");
    push_str_value(out, &r.access_key_id);
    push_lit(out, ",\"secret-access-key\":");
    push_str_value(out, &r.secret_access_key);
    if let Some(t) = &r.session_token {
        push_lit(out, ",\"session-token\":");
        push_str_value(out, t);
    }
    if let Some(e) = &r.expiration {
        push_lit(out, ",\"expiration\":\"");
        let mut ts = render_rfc3339(e);
        out.append(&mut ts);
        push_lit(out, "\"");
    }
    push_lit(out, "}");
    proof {
        assert(out@ =~= old(out)@ + spec_render_record(*r));
    }
}

/// Appends one registered device.
fn push_device(out: &mut Vec<u8>, d: &MfaDeviceEntry)
    ensures
        final(out)@ == old(out)@ + spec_render_device(*d),
{
    match d {
        MfaDeviceEntry::HardwareOathToken { account_name } => {
            push_lit(out, "{\"ykoath\":{\"name\":");
            push_str_value(out, account_name);
            push_lit(out, "}}");
        },
    }
    proof {
        assert(out@ =~= old(out)@ + spec_render_device(*d));
    }
}

/// Renders the whole store as its persisted document. Every save
/// rewrites the entire document; there are no partial updates.
pub fn render_store(st: &Store) -> (r: Vec<u8>)
    requires
        st.well_formed(),
    ensures
        r@ == spec_render_store(*st),
{
    let mut out: Vec<u8> = Vec::new();
    push_lit(&mut out, "{\"credentials\":{");
    let ghost base = out@;
    let mut i: usize = 0;
    while i < st.credentials.len()
        invariant
            st.well_formed(),
            i <= st.credentials@.len(),
            out@ == base + spec_render_creds(st.credentials@.take(i as int)),
        decreases st.credentials@.len() - i,
    {
        proof {
            assert(st.credentials@.take(i as int + 1).drop_last() =~= st.credentials@.take(
                i as int,
            ));
            assert(st.credentials@.take(i as int + 1).last() == st.credentials@[i as int]);
            assert(st.credentials@[i as int].1.well_formed());
        }
        if i > 0 {
            push_lit(&mut out, ",");
        }
        push_str_value(&mut out, &st.credentials[i].0);
        push_lit(&mut out, ":");
        push_record(&mut out, &st.credentials[i].1);
        proof {
            assert(out@ =~= base + spec_render_creds(st.credentials@.take(i as int + 1)));
        }
        i += 1;
    }
    proof {
        assert(st.credentials@.take(st.credentials@.len() as int) =~= st.credentials@);
    }
    push_lit(&mut out, "},\"mfa-devices\":{");
    let ghost base2 = out@;
    let mut j: usize = 0;
    while j < st.mfa_devices.len()
        invariant
            st.well_formed(),
            j <= st.mfa_devices@.len(),
            out@ == base2 + spec_render_devs(st.mfa_devices@.take(j as int)),
        decreases st.mfa_devices@.len() - j,
    {
        proof {
            assert(st.mfa_devices@.take(j as int + 1).drop_last() =~= st.mfa_devices@.take(
                j as int,
            ));
            assert(st.mfa_devices@.take(j as int + 1).last() == st.mfa_devices@[j as int]);
        }
        if j > 0 {
            push_lit(&mut out, ",");
        }
        push_str_value(&mut out, &st.mfa_devices[j].0);
        push_lit(&mut out, ":");
        push_device(&mut out, &st.mfa_devices[j].1);
        proof {
            assert(out@ =~= base2 + spec_render_devs(st.mfa_devices@.take(j as int + 1)));
        }
        j += 1;
    }
    proof {
        assert(st.mfa_devices@.take(st.mfa_devices@.len() as int) =~= st.mfa_devices@);
    }
    push_lit(&mut out, "}}");
    proof {
        assert(out@ =~= spec_render_store(*st));
    }
    out
}

/// The diagnostic rendering of a record: the key id in the clear,
/// secret material replaced by a fixed redaction marker.
pub open spec fn spec_describe_record(r: CredentialRecord) -> Seq<u8> {
    lit("Credentials { access_key_id: ") + r.access_key_id@ + lit(
        ", secret_access_key: ***, session_token: ",
    ) + (match r.session_token {
        Some(_) => lit("***"),
        None => lit("none"),
    }) + lit(", expiration: ") + (match r.expiration {
        Some(e) => spec_rfc3339(e),
        None => lit("none"),
    }) + lit(" }")
}

/// Renders a record for diagnostics. The secret key and any session
/// token never appear in the output; each is replaced by a fixed
/// redaction marker.
pub fn describe_record(r: &CredentialRecord) -> (out: Vec<u8>)
    requires
        r.well_formed(),
    ensures
        out@ == spec_describe_record(*r),
{
    let mut out: Vec<u8> = Vec::new();
    push_lit(&mut out, "Credentials { access_key_id: ");
    out.extend_from_slice(r.access_key_id.as_slice());
    push_lit(&mut out, ", secret_access_key: ***, session_token: ");
    match &r.session_token {
        Some(_) => push_lit(&mut out, "***"),
        None => push_lit(&mut out, "none"),
    }
    push_lit(&mut out, ", expiration: ");
    match &r.expiration {
        Some(e) => {
            let mut ts = render_rfc3339(e);
            out.append(&mut ts);
        },
        None => push_lit(&mut out, "none"),
    }
    push_lit(&mut out, " }");
    proof {
        assert(out@ =~= spec_describe_record(*r));
    }
    out
}

/// View-for-view equality of two credentials sections.
pub open spec fn same_cred_entries(
    a: Seq<(Vec<u8>, CredentialRecord)>,
    b: Seq<(Vec<u8>, CredentialRecord)>,
) -> bool {
    &&& a.len() == b.len()
    &&& forall|t: int|
        0 <= t < a.len() ==> (#[trigger] a[t]).0@ == b[t].0@ && a[t].1.same_record(b[t].1)
}

/// View-for-view equality of two device sections.
pub open spec fn same_dev_entries(
    a: Seq<(Vec<u8>, MfaDeviceEntry)>,
    b: Seq<(Vec<u8>, MfaDeviceEntry)>,
) -> bool {
    &&& a.len() == b.len()
    &&& forall|t: int|
        0 <= t < a.len() ==> (#[trigger] a[t]).0@ == b[t].0@ && a[t].1.same_entry(b[t].1)
}

/// View-for-view equality of two stores, section by section.
pub open spec fn same_store(a: Store, b: Store) -> bool {
    same_cred_entries(a.credentials@, b.credentials@) && same_dev_entries(
        a.mfa_devices@,
        b.mfa_devices@,
    )
}

/// The handful of concrete byte values of document literals that the
/// strict reader's proofs compare against.
proof fn lemma_literal_bytes()
    ensures
        lit("{}").len() == 2 && lit("{}")[0] == 123 && lit("{}")[1] == 125,
        lit("}").len() == 1 && lit("}")[0] == 125,
        lit("\"").len() == 1 && lit("\"")[0] == 34,
        lit("},\"mfa-devices\":{")[0] == 125 && lit("},\"mfa-devices\":{").len() == 17,
        lit("}}")[0] == 125 && lit("}}").len() == 2,
        lit(",\"session-token\":").len() == 17 && lit(",\"session-token\":")[0] == 44 && lit(
            ",\"session-token\":",
        )[2] == 115,
        lit(",\"expiration\":\"").len() == 15 && lit(",\"expiration\":\"")[0] == 44 && lit(
            ",\"expiration\":\"",
        )[2] == 101,
        lit(",").len() == 1 && lit(",")[0] == 44,
        lit("{\"credentials\":{").len() == 16,
        lit(":").len() == 1 && lit(":")[0] == 58,
        lit("{\"ykoath\":{\"name\":")[0] == 123,
{
    broadcast use vstd::utf8::is_ascii_chars_encode_utf8;

    reveal_strlit("{}");
    assert(vstd::utf8::is_ascii_chars("{}"@));
    reveal_strlit("}");
    assert(vstd::utf8::is_ascii_chars("}"@));
    reveal_strlit("\"");
    assert(vstd::utf8::is_ascii_chars("\""@));
    reveal_strlit("},\"mfa-devices\":{");
    assert(vstd::utf8::is_ascii_chars("},\"mfa-devices\":{"@));
    reveal_strlit("}}");
    assert(vstd::utf8::is_ascii_chars("}}"@));
    reveal_strlit(",\"session-token\":");
    assert(vstd::utf8::is_ascii_chars(",\"session-token\":"@));
    reveal_strlit(",\"expiration\":\"");
    assert(vstd::utf8::is_ascii_chars(",\"expiration\":\""@));
    reveal_strlit(",");
    assert(vstd::utf8::is_ascii_chars(","@));
    reveal_strlit("{\"credentials\":{");
    assert(vstd::utf8::is_ascii_chars("{\"credentials\":{"@));
    reveal_strlit(":");
    assert(vstd::utf8::is_ascii_chars(":"@));
    reveal_strlit("{\"ykoath\":{\"name\":");
    assert(vstd::utf8::is_ascii_chars("{\"ykoath\":{\"name\":"@));
}

/// The rendering of record `rec` stands in `s` at position `i`.
pub open spec fn spec_record_rendering_at(s: Seq<u8>, i: int, rec: CredentialRecord) -> bool {
    &&& i + spec_render_record(rec).len() <= s.len()
    &&& s.subrange(i, i + spec_render_record(rec).len() as int) == spec_render_record(rec)
}

/// Offset of the access-key-id value within a rendered record.
pub open spec fn spec_rec_p1(i: int, rec: CredentialRecord) -> int {
    i + lit("{\"access-key-id\":").len()
}

/// Offset of the secret-access-key value.
pub open spec fn spec_rec_p2(i: int, rec: CredentialRecord) -> int {
    spec_rec_p1(i, rec) + spec_render_str(rec.access_key_id@).len() + lit(
        ",\"secret-access-key\":",
    ).len()
}

/// Offset just past the secret-access-key value.
pub open spec fn spec_rec_p3(i: int, rec: CredentialRecord) -> int {
    spec_rec_p2(i, rec) + spec_render_str(rec.secret_access_key@).len()
}

/// Offset just past the session-token member, when present.
pub open spec fn spec_rec_p4(i: int, rec: CredentialRecord) -> int {
    spec_rec_p3(i, rec) + (match rec.session_token {
        Some(t) => lit(",\"session-token\":").len() + spec_render_str(t@).len(),
        None => 0,
    })
}

/// Offset just past the expiration member, when present; the record's
/// closing brace stands here.
pub open spec fn spec_rec_p5(i: int, rec: CredentialRecord) -> int {
    spec_rec_p4(i, rec) + (match rec.expiration {
        Some(_) => lit(",\"expiration\":\"").len() + 21,
        None => 0,
    })
}

/// A piece of a byte string that stands in `s` as part of a larger
/// piece stands in `s` on its own.
proof fn lemma_sub_at(s: Seq<u8>, i: int, whole: Seq<u8>, off: int, part: Seq<u8>)
    requires
        0 <= i,
        i + whole.len() <= s.len(),
        s.subrange(i, i + whole.len() as int) == whole,
        0 <= off,
        off + part.len() <= whole.len(),
        forall|u: int| 0 <= u < part.len() ==> whole[off + u] == #[trigger] part[u],
    ensures
        s.subrange(i + off, i + off + part.len() as int) == part,
{
    assert forall|u: int| 0 <= u < part.len() implies s.subrange(
        i + off,
        i + off + part.len() as int,
    )[u] == part[u] by {
        assert(s.subrange(i, i + whole.len() as int)[off + u] == s[i + off + u]);
    }
    assert(s.subrange(i + off, i + off + part.len() as int) =~= part);
}

/// Where each piece of a rendered record stands in the input.
pub open spec fn spec_rec_layout(s: Seq<u8>, i: int, rec: CredentialRecord) -> bool {
    &&& spec_render_record(rec).len() == spec_rec_p5(i, rec) - i + 1
    &&& s.subrange(i, spec_rec_p1(i, rec)) == lit("{\"access-key-id\":")
    &&& spec_rendering_at(s, spec_rec_p1(i, rec), rec.access_key_id@)
    &&& s.subrange(
        spec_rec_p1(i, rec) + spec_render_str(rec.access_key_id@).len() as int,
        spec_rec_p2(i, rec),
    ) == lit(",\"secret-access-key\":")
    &&& spec_rendering_at(s, spec_rec_p2(i, rec), rec.secret_access_key@)
    &&& (rec.session_token matches Some(t) ==> s.subrange(
        spec_rec_p3(i, rec),
        spec_rec_p3(i, rec) + lit(",\"session-token\":").len() as int,
    ) == lit(",\"session-token\":") && spec_rendering_at(
        s,
        spec_rec_p3(i, rec) + lit(",\"session-token\":").len(),
        t@,
    ))
    &&& (rec.expiration matches Some(e) ==> s.subrange(
        spec_rec_p4(i, rec),
        spec_rec_p4(i, rec) + lit(",\"expiration\":\"").len() as int,
    ) == lit(",\"expiration\":\"") && s.subrange(
        spec_rec_p4(i, rec) + lit(",\"expiration\":\"").len() as int,
        spec_rec_p4(i, rec) + lit(",\"expiration\":\"").len() + 20,
    ) == spec_rfc3339(e) && s.subrange(spec_rec_p5(i, rec) - 1, spec_rec_p5(i, rec)) == lit("\""))
    &&& s.subrange(spec_rec_p5(i, rec), spec_rec_p5(i, rec) + 1) == lit("}")
}

/// Proves the layout of a rendered record.
#[verifier::rlimit(100)]
#[verifier::spinoff_prover]
proof fn lemma_record_layout(s: Seq<u8>, i: int, rec: CredentialRecord)
    requires
        0 <= i,
        spec_record_rendering_at(s, i, rec),
    ensures
        spec_rec_layout(s, i, rec),
{
    lemma_literal_bytes();
    let w = spec_render_record(rec);
    let c1 = lit("{\"access-key-id\":");
    let a = spec_render_str(rec.access_key_id@);
    let c2 = lit(",\"secret-access-key\":");
    let b = spec_render_str(rec.secret_access_key@);
    let tok = match rec.session_token {
        Some(t) => lit(",\"session-token\":") + spec_render_str(t@),
        None => Seq::<u8>::empty(),
    };
    let exp = match rec.expiration {
        Some(e) => lit(",\"expiration\":\"") + spec_rfc3339(e) + lit("\""),
        None => Seq::<u8>::empty(),
    };
    assert(w == c1 + a + c2 + b + tok + exp + lit("}"));
    let o1 = c1.len() as int;
    let o2 = o1 + a.len();
    let o3 = o2 + c2.len();
    let o4 = o3 + b.len();
    let o5 = o4 + tok.len();
    let o6 = o5 + exp.len();
    assert(w.len() == o6 + 1);
    assert forall|u: int| 0 <= u < c1.len() implies w[0 + u] == #[trigger] c1[u] by {}
    lemma_sub_at(s, i, w, 0, c1);
    assert forall|u: int| 0 <= u < a.len() implies w[o1 + u] == #[trigger] a[u] by {}
    lemma_sub_at(s, i, w, o1, a);
    assert forall|u: int| 0 <= u < c2.len() implies w[o2 + u] == #[trigger] c2[u] by {}
    lemma_sub_at(s, i, w, o2, c2);
    assert forall|u: int| 0 <= u < b.len() implies w[o3 + u] == #[trigger] b[u] by {}
    lemma_sub_at(s, i, w, o3, b);
    assert forall|u: int| 0 <= u < tok.len() implies w[o4 + u] == #[trigger] tok[u] by {}
    lemma_sub_at(s, i, w, o4, tok);
    assert forall|u: int| 0 <= u < exp.len() implies w[o5 + u] == #[trigger] exp[u] by {}
    lemma_sub_at(s, i, w, o5, exp);
    assert forall|u: int| 0 <= u < 1 implies w[o6 + u] == #[trigger] (lit("}"))[u] by {}
    lemma_sub_at(s, i, w, o6, lit("}"));
    if let Some(t) = rec.session_token {
        let ct = lit(",\"session-token\":");
        let rt = spec_render_str(t@);
        assert forall|u: int| 0 <= u < ct.len() implies tok[0 + u] == #[trigger] ct[u] by {}
        lemma_sub_at(s, i + o4, tok, 0, ct);
        assert forall|u: int| 0 <= u < rt.len() implies tok[ct.len() + u] == #[trigger] rt[u] by {}
        lemma_sub_at(s, i + o4, tok, ct.len() as int, rt);
    }
    if let Some(e) = rec.expiration {
        let ce = lit(",\"expiration\":\"");
        let re = spec_rfc3339(e);
        assert forall|u: int| 0 <= u < ce.len() implies exp[0 + u] == #[trigger] ce[u] by {}
        lemma_sub_at(s, i + o5, exp, 0, ce);
        assert forall|u: int| 0 <= u < re.len() implies exp[ce.len() + u] == #[trigger] re[u] by {
            assert(exp[ce.len() + u] == (ce + re)[ce.len() + u]);
        }
        lemma_sub_at(s, i + o5, exp, ce.len() as int, re);
        assert forall|u: int| 0 <= u < 1 implies exp[ce.len() + 20 + u] == #[trigger] (lit(
            "\"",
        ))[u] by {}
        lemma_sub_at(s, i + o5, exp, ce.len() + 20 as int, lit("\""));
    }
}

/// Shorthand for the strict reader's hypothesis on a record.
pub open spec fn spec_rec_hyp(s: Seq<u8>, i: int, rec: CredentialRecord) -> bool {
    rec.well_formed() && spec_record_rendering_at(s, i, rec)
}

/// Reads one record in exactly the form the renderer writes it.
///
/// The second clause is this layer's round trip: wherever the
/// canonical rendering of a well-formed record stands, the read
/// succeeds with an equal record and consumes exactly the rendering.
#[verifier::rlimit(100)]
#[verifier::spinoff_prover]
fn parse_record_strict(s: &[u8], i: usize) -> (r: Option<(CredentialRecord, usize)>)
    requires
        i <= s@.len(),
    ensures
        r matches Some((rec, j)) ==> rec.well_formed() && i < j <= s@.len(),
        forall|rec: CredentialRecord|
            #![trigger spec_rec_hyp(s@, i as int, rec)]
            spec_rec_hyp(s@, i as int, rec) ==> (r matches Some((rec2, j2)) && rec2.same_record(rec)
                && j2 == i + spec_render_record(rec).len()),
{
    proof {
        lemma_literal_bytes();
        assert forall|rec: CredentialRecord|
            spec_rec_hyp(s@, i as int, rec) implies spec_rec_layout(s@, i as int, rec) by {
            lemma_record_layout(s@, i as int, rec);
        }
    }
    let j0 = match expect_bytes(s, i, "{\"access-key-id\":") {
        Some(j) => j,
        None => {
            return None;
        },
    };
    let (access_key_id, j1) = match parse_string_at(s, j0) {
        Some(p) => p,
        None => {
            return None;
        },
    };
    proof {
        assert forall|rec: CredentialRecord| spec_rec_hyp(s@, i as int, rec) implies (access_key_id@
            == rec.access_key_id@ && j1 == spec_rec_p1(i as int, rec) + spec_render_str(
            rec.access_key_id@,
        ).len()) by {}
    }
    let j2 = match expect_bytes(s, j1, ",\"secret-access-key\":") {
        Some(j) => j,
        None => {
            return None;
        },
    };
    let (secret_access_key, j3) = match parse_string_at(s, j2) {
        Some(p) => p,
        None => {
            return None;
        },
    };
    proof {
        assert forall|rec: CredentialRecord| spec_rec_hyp(s@, i as int, rec) implies (
        secret_access_key@ == rec.secret_access_key@ && j3 == spec_rec_p3(i as int, rec)) by {}
    }
    let mut session_token: Option<Vec<u8>> = None;
    let mut j4 = j3;
    match expect_bytes(s, j3, ",\"session-token\":") {
        Some(jt) => {
            match parse_string_at(s, jt) {
                Some((tok, jt2)) => {
                    session_token = Some(tok);
                    j4 = jt2;
                },
                None => {
                    return None;
                },
            }
        },
        None => {},
    }
    proof {
        assert forall|rec: CredentialRecord| spec_rec_hyp(s@, i as int, rec) implies ((match rec.session_token {
            Some(t) => session_token matches Some(tv) && tv@ == t@,
            None => session_token is None,
        }) && j4 == spec_rec_p4(i as int, rec)) by {}
    }
    let mut expiration: Option<crate::timestamp::Timestamp> = None;
    let mut j5 = j4;
    match expect_bytes(s, j4, ",\"expiration\":\"") {
        Some(je) => {
            if s.len() - je < 20 {
                return None;
            }
            let t = match parse_rfc3339(&s[je..je + 20]) {
                Some(t) => t,
                None => {
                    return None;
                },
            };
            match expect_bytes(s, je + 20, "\"") {
                Some(jq) => {
                    expiration = Some(t);
                    j5 = jq;
                },
                None => {
                    return None;
                },
            }
        },
        None => {},
    }
    proof {
        assert forall|rec: CredentialRecord| spec_rec_hyp(s@, i as int, rec) implies ((match rec.expiration {
            Some(e) => expiration == Some(e),
            None => expiration is None,
        }) && j5 == spec_rec_p5(i as int, rec)) by {}
    }
    if session_token.is_some() != expiration.is_some() {
        return None;
    }
    if let Some(t) = &expiration {
        let in_range = t.year >= 1 && t.year <= 9999 && t.month >= 1 && t.month <= 12 && t.day >= 1
            && t.day <= crate::timestamp::days_in_month(t.year, t.month) && t.hour <= 23
            && t.minute <= 59 && t.second <= 59;
        if !in_range {
            return None;
        }
    }
    let j6 = match expect_bytes(s, j5, "}") {
        Some(j) => j,
        None => {
            return None;
        },
    };
    let rec2 = CredentialRecord { access_key_id, secret_access_key, session_token, expiration };
    proof {
        assert forall|rec: CredentialRecord| spec_rec_hyp(s@, i as int, rec) implies (
        rec2.same_record(rec) && j6 == i + spec_render_record(rec).len()) by {}
    }
    Some((rec2, j6))
}

/// One more entry extends the rendered credentials section by a
/// separator (after the first) and the entry itself.
proof fn lemma_creds_step(entries: Seq<(Vec<u8>, CredentialRecord)>, m: int)
    requires
        0 <= m < entries.len(),
    ensures
        spec_render_creds(entries.take(m + 1)) == spec_render_creds(entries.take(m)) + (
        if m > 0 {
            lit(",")
        } else {
            Seq::<u8>::empty()
        }) + spec_render_str(entries[m].0@) + lit(":") + spec_render_record(entries[m].1),
{
    let p = entries.take(m + 1);
    assert(p.drop_last() =~= entries.take(m));
    assert(p.last() == entries[m]);
    if m == 0 {
        assert(spec_render_creds(p) =~= spec_render_creds(entries.take(0)) + Seq::<u8>::empty()
            + spec_render_str(entries[0].0@) + lit(":") + spec_render_record(entries[0].1));
    } else {
        assert(spec_render_creds(p) =~= spec_render_creds(entries.take(m)) + lit(",")
            + spec_render_str(entries[m].0@) + lit(":") + spec_render_record(entries[m].1));
    }
}

/// The rendering of a prefix of the entries is a prefix of the
/// rendering of them all.
proof fn lemma_creds_prefix(entries: Seq<(Vec<u8>, CredentialRecord)>, m: int)
    requires
        0 <= m <= entries.len(),
    ensures
        spec_render_creds(entries.take(m)).len() <= spec_render_creds(entries).len(),
        forall|u: int|
            0 <= u < spec_render_creds(entries.take(m)).len() ==> spec_render_creds(entries)[u]
                == #[trigger] spec_render_creds(entries.take(m))[u],
    decreases entries.len() - m,
{
    if m < entries.len() {
        lemma_creds_step(entries, m);
        lemma_creds_prefix(entries, m + 1);
        let pm = spec_render_creds(entries.take(m));
        let pm1 = spec_render_creds(entries.take(m + 1));
        let sep: Seq<u8> = if m > 0 {
            lit(",")
        } else {
            Seq::<u8>::empty()
        };
        assert forall|u: int| 0 <= u < pm.len() implies pm1[u] == #[trigger] pm[u] by {
            assert(pm1[u] == (pm + sep)[u]);
        }
        assert forall|u: int|
            0 <= u < pm.len() implies spec_render_creds(entries)[u] == #[trigger] pm[u] by {
            assert(spec_render_creds(entries)[u] == pm1[u]);
        }
    } else {
        assert(entries.take(m) =~= entries);
    }
}

/// The strict reader's hypothesis on a credentials section: the
/// rendered entries stand at `i`, the keys are unique, every record
/// keeps its invariant, and the byte after the section opens neither
/// a key nor another entry.
pub open spec fn spec_creds_hyp(
    s: Seq<u8>,
    i: int,
    entries: Seq<(Vec<u8>, CredentialRecord)>,
) -> bool {
    &&& unique_keys(entries)
    &&& (forall|t: int| 0 <= t < entries.len() ==> (#[trigger] entries[t]).1.well_formed())
    &&& 0 <= i
    &&& i + spec_render_creds(entries).len() < s.len()
    &&& s.subrange(i, i + spec_render_creds(entries).len() as int) == spec_render_creds(entries)
    &&& s[i + spec_render_creds(entries).len()] != 34
    &&& s[i + spec_render_creds(entries).len()] != 44
}

/// Offset of entry `m`'s own bytes (past any separator).
pub open spec fn spec_creds_pos(i: int, entries: Seq<(Vec<u8>, CredentialRecord)>, m: int) -> int {
    i + spec_render_creds(entries.take(m)).len() + (if m > 0 {
        1int
    } else {
        0int
    })
}

/// Where entry `m` of a rendered credentials section stands.
pub open spec fn spec_creds_entry_layout(
    s: Seq<u8>,
    i: int,
    entries: Seq<(Vec<u8>, CredentialRecord)>,
    m: int,
) -> bool {
    &&& (m > 0 ==> s[i + spec_render_creds(entries.take(m)).len()] == 44)
    &&& spec_rendering_at(s, spec_creds_pos(i, entries, m), entries[m].0@)
    &&& s.subrange(
        spec_creds_pos(i, entries, m) + spec_render_str(entries[m].0@).len() as int,
        spec_creds_pos(i, entries, m) + spec_render_str(entries[m].0@).len() + 1,
    ) == lit(":")
    &&& spec_rec_hyp(
        s,
        spec_creds_pos(i, entries, m) + spec_render_str(entries[m].0@).len() + 1,
        entries[m].1,
    )
    &&& spec_creds_pos(i, entries, m) + spec_render_str(entries[m].0@).len() + 1
        + spec_render_record(entries[m].1).len() == i + spec_render_creds(
        entries.take(m + 1),
    ).len()
}

/// Proves the layout of entry `m` within a rendered section.
#[verifier::rlimit(100)]
#[verifier::spinoff_prover]
proof fn lemma_creds_entry_at(
    s: Seq<u8>,
    i: int,
    entries: Seq<(Vec<u8>, CredentialRecord)>,
    m: int,
)
    requires
        spec_creds_hyp(s, i, entries),
        0 <= m < entries.len(),
    ensures
        spec_creds_entry_layout(s, i, entries, m),
{
    lemma_literal_bytes();
    lemma_creds_step(entries, m);
    lemma_creds_prefix(entries, m + 1);
    let w = spec_render_creds(entries);
    let q = spec_render_creds(entries.take(m));
    let sep: Seq<u8> = if m > 0 {
        lit(",")
    } else {
        Seq::<u8>::empty()
    };
    let k = spec_render_str(entries[m].0@);
    let rr = spec_render_record(entries[m].1);
    let p = spec_render_creds(entries.take(m + 1));
    assert(p == q + sep + k + lit(":") + rr);
    let o0 = q.len() as int;
    let o1 = o0 + sep.len();
    let o2 = o1 + k.len();
    let o3 = o2 + 1;
    assert(p.len() == o3 + rr.len());
    if m > 0 {
        assert(w[o0] == p[o0]);
        assert(p[o0] == (q + sep)[o0]);
        assert(s.subrange(i, i + w.len() as int)[o0] == s[i + o0]);
    }
    assert forall|u: int| 0 <= u < k.len() implies w[o1 + u] == #[trigger] k[u] by {
        assert(p[o1 + u] == (q + sep + k)[o1 + u]);
    }
    lemma_sub_at(s, i, w, o1, k);
    assert forall|u: int| 0 <= u < 1 implies w[o2 + u] == #[trigger] (lit(":"))[u] by {
        assert(p[o2 + u] == (q + sep + k + lit(":"))[o2 + u]);
    }
    lemma_sub_at(s, i, w, o2, lit(":"));
    assert forall|u: int| 0 <= u < rr.len() implies w[o3 + u] == #[trigger] rr[u] by {
        assert(p[o3 + u] == rr[u]);
    }
    lemma_sub_at(s, i, w, o3, rr);
}

/// The separator byte after entry `m`, when another entry follows.
proof fn lemma_creds_sep_after(
    s: Seq<u8>,
    i: int,
    entries: Seq<(Vec<u8>, CredentialRecord)>,
    m: int,
)
    requires
        spec_creds_hyp(s, i, entries),
        0 <= m,
        m + 1 < entries.len(),
    ensures
        s[i + spec_render_creds(entries.take(m + 1)).len()] == 44,
{
    lemma_literal_bytes();
    lemma_creds_step(entries, m + 1);
    lemma_creds_prefix(entries, m + 2);
    let p1 = spec_render_creds(entries.take(m + 1));
    let p2 = spec_render_creds(entries.take(m + 2));
    assert(p2[p1.len() as int] == (p1 + lit(","))[p1.len() as int]);
    assert(spec_render_creds(entries)[p1.len() as int] == 44);
    assert(s.subrange(i, i + spec_render_creds(entries).len() as int)[p1.len() as int] == s[i
        + p1.len()]);
}

/// Reads the entries of a credentials section in exactly the form
/// the renderer writes them, stopping before the byte that closes
/// the section. A repeated identifier is not canonical and is
/// rejected here (the tolerant reader still accepts it).
#[verifier::rlimit(100)]
#[verifier::spinoff_prover]
fn parse_cred_entries_strict(s: &[u8], i: usize) -> (r: Option<
    (Vec<(Vec<u8>, CredentialRecord)>, usize),
>)
    requires
        i <= s@.len(),
    ensures
        r matches Some((es, j)) ==> unique_keys(es@) && i <= j <= s@.len() && (forall|t: int|
            0 <= t < es@.len() ==> (#[trigger] es@[t]).1.well_formed()),
        forall|entries: Seq<(Vec<u8>, CredentialRecord)>|
            #![trigger spec_creds_hyp(s@, i as int, entries)]
            spec_creds_hyp(s@, i as int, entries) ==> (r matches Some((es, j2))
                && same_cred_entries(es@, entries) && j2 == i + spec_render_creds(entries).len()),
{
    let mut es: Vec<(Vec<u8>, CredentialRecord)> = Vec::new();
    let mut j = i;
    proof {
        assert forall|entries: Seq<(Vec<u8>, CredentialRecord)>|
            #![trigger spec_creds_hyp(s@, i as int, entries)]
            spec_creds_hyp(s@, i as int, entries) implies (entries.len() == 0
            ==> spec_render_creds(entries).len() == 0 && s@[i as int] != 34) && (entries.len() > 0
            ==> i + 1 < s@.len() && s@[i as int] == 34 && same_cred_entries(es@, entries.take(0))
            && i == spec_creds_pos(i as int, entries, 0)) by {
            assert(entries.take(0) =~= Seq::<(Vec<u8>, CredentialRecord)>::empty());
            if entries.len() > 0 {
                lemma_creds_entry_at(s@, i as int, entries, 0);
                lemma_shell_bytes(s@, i as int, entries[0].0@);
            }
        }
    }
    if !(j < s.len() && s[j] == 34) {
        proof {
            assert forall|entries: Seq<(Vec<u8>, CredentialRecord)>|
                spec_creds_hyp(s@, i as int, entries) implies (same_cred_entries(es@, entries) && j
                == i + spec_render_creds(entries).len()) by {
                if entries.len() > 0 {
                    assert(false);
                }
            }
        }
        return Some((es, j));
    }
    loop
        invariant_except_break
            forall|entries: Seq<(Vec<u8>, CredentialRecord)>|
                #![trigger spec_creds_hyp(s@, i as int, entries)]
                spec_creds_hyp(s@, i as int, entries) ==> (es@.len() < entries.len()
                    && same_cred_entries(es@, entries.take(es@.len() as int)) && j
                    == spec_creds_pos(i as int, entries, es@.len() as int)),
        invariant
            i < s@.len(),
            i <= j <= s@.len(),
            unique_keys(es@),
            forall|t: int| 0 <= t < es@.len() ==> (#[trigger] es@[t]).1.well_formed(),
        ensures
            i <= j <= s@.len(),
            unique_keys(es@),
            forall|t: int| 0 <= t < es@.len() ==> (#[trigger] es@[t]).1.well_formed(),
            forall|entries: Seq<(Vec<u8>, CredentialRecord)>|
                #![trigger spec_creds_hyp(s@, i as int, entries)]
                spec_creds_hyp(s@, i as int, entries) ==> (same_cred_entries(es@, entries) && j == i
                    + spec_render_creds(entries).len()),
        decreases s@.len() - j,
    {
        let ghost es0 = es@;
        proof {
            assert forall|entries: Seq<(Vec<u8>, CredentialRecord)>|
                spec_creds_hyp(s@, i as int, entries) implies spec_creds_entry_layout(
                s@,
                i as int,
                entries,
                es0.len() as int,
            ) by {
                lemma_creds_entry_at(s@, i as int, entries, es0.len() as int);
            }
        }
        let (key, jk) = match parse_string_at(s, j) {
            Some(p) => p,
            None => {
                return None;
            },
        };
        let jc = match expect_bytes(s, jk, ":") {
            Some(p) => p,
            None => {
                return None;
            },
        };
        let (rec, jr) = match parse_record_strict(s, jc) {
            Some(p) => p,
            None => {
                return None;
            },
        };
        if lookup(&es, key.as_slice()).is_some() {
            proof {
                crate::store::lemma_lookup(es@, key@);
                assert forall|entries: Seq<(Vec<u8>, CredentialRecord)>|
                    spec_creds_hyp(s@, i as int, entries) implies false by {
                    let t = choose|t: int| 0 <= t < es@.len() && !(es@[t].0@ != key@);
                }
            }
            return None;
        }
        proof {
            crate::store::lemma_lookup(es@, key@);
            crate::store::lemma_insert_push(es@, key, rec);
        }
        es.push((key, rec));
        j = jr;
        let ghost jmid = j as int;
        proof {
            assert forall|entries: Seq<(Vec<u8>, CredentialRecord)>|
                spec_creds_hyp(s@, i as int, entries) implies (es@.len() <= entries.len()
                && same_cred_entries(es@, entries.take(es@.len() as int)) && jmid == i
                + spec_render_creds(entries.take(es@.len() as int)).len()) by {
                assert(es@.drop_last() == es0);
                assert(entries.take(es0.len() as int + 1).drop_last() =~= entries.take(
                    es0.len() as int,
                ));
                assert(entries.take(es0.len() as int + 1).last() == entries[es0.len() as int]);
                assert forall|t: int| 0 <= t < es@.len() implies ((#[trigger] es@[t]).0@
                    == entries.take(es@.len() as int)[t].0@ && es@[t].1.same_record(
                    entries.take(es@.len() as int)[t].1,
                )) by {
                    if t < es0.len() {
                        assert(es@[t] == es0[t]);
                        assert(entries.take(es0.len() as int)[t] == entries.take(
                            es@.len() as int,
                        )[t]);
                    }
                }
            }
        }
        if j < s.len() && s[j] == 44 {
            j += 1;
            if !(j < s.len() && s[j] == 34) {
                proof {
                    assert forall|entries: Seq<(Vec<u8>, CredentialRecord)>|
                        spec_creds_hyp(s@, i as int, entries) implies false by {
                        if es@.len() < entries.len() {
                            lemma_creds_sep_after(s@, i as int, entries, es0.len() as int);
                            lemma_creds_entry_at(s@, i as int, entries, es@.len() as int);
                            lemma_shell_bytes(
                                s@,
                                spec_creds_pos(i as int, entries, es@.len() as int),
                                entries[es@.len() as int].0@,
                            );
                        } else {
                            assert(entries.take(es@.len() as int) =~= entries);
                        }
                    }
                }
                return None;
            }
            proof {
                assert forall|entries: Seq<(Vec<u8>, CredentialRecord)>|
                    spec_creds_hyp(s@, i as int, entries) implies (es@.len() < entries.len() && j
                    == spec_creds_pos(i as int, entries, es@.len() as int)) by {
                    if es@.len() < entries.len() {
                    } else {
                        assert(entries.take(es@.len() as int) =~= entries);
                    }
                }
            }
        } else {
            proof {
                assert forall|entries: Seq<(Vec<u8>, CredentialRecord)>|
                    spec_creds_hyp(s@, i as int, entries) implies (same_cred_entries(es@, entries)
                    && j == i + spec_render_creds(entries).len()) by {
                    if es@.len() < entries.len() {
                        lemma_creds_sep_after(s@, i as int, entries, es0.len() as int);
                        lemma_creds_prefix(entries, es@.len() as int);
                    } else {
                        assert(entries.take(es@.len() as int) =~= entries);
                    }
                }
            }
            break ;
        }
    }
    Some((es, j))
}

/// Shorthand for the strict reader's hypothesis on a device entry.
pub open spec fn spec_dev_hyp(s: Seq<u8>, i: int, d: MfaDeviceEntry) -> bool {
    &&& i + spec_render_device(d).len() <= s.len()
    &&& s.subrange(i, i + spec_render_device(d).len() as int) == spec_render_device(d)
}

/// Where the pieces of a rendered device stand in the input.
pub open spec fn spec_dev_layout(s: Seq<u8>, i: int, d: MfaDeviceEntry) -> bool {
    match d {
        MfaDeviceEntry::HardwareOathToken { account_name } => {
            &&& s.subrange(i, i + lit("{\"ykoath\":{\"name\":").len() as int) == lit(
                "{\"ykoath\":{\"name\":",
            )
            &&& spec_rendering_at(s, i + lit("{\"ykoath\":{\"name\":").len(), account_name@)
            &&& s.subrange(
                i + spec_render_device(d).len() - 2,
                i + spec_render_device(d).len() as int,
            ) == lit("}}")
            &&& spec_render_device(d).len() == lit("{\"ykoath\":{\"name\":").len()
                + spec_render_str(account_name@).len() + 2
        },
    }
}

/// Proves the layout of a rendered device.
proof fn lemma_device_layout(s: Seq<u8>, i: int, d: MfaDeviceEntry)
    requires
        0 <= i,
        spec_dev_hyp(s, i, d),
    ensures
        spec_dev_layout(s, i, d),
{
    lemma_literal_bytes();
    match d {
        MfaDeviceEntry::HardwareOathToken { account_name } => {
            let w = spec_render_device(d);
            let c = lit("{\"ykoath\":{\"name\":");
            let k = spec_render_str(account_name@);
            assert(w == c + k + lit("}}"));
            assert forall|u: int| 0 <= u < c.len() implies w[0 + u] == #[trigger] c[u] by {}
            lemma_sub_at(s, i, w, 0, c);
            assert forall|u: int| 0 <= u < k.len() implies w[c.len() + u] == #[trigger] k[u] by {
                assert(w[c.len() + u] == (c + k)[c.len() + u]);
            }
            lemma_sub_at(s, i, w, c.len() as int, k);
            assert forall|u: int|
                0 <= u < lit("}}").len() implies w[c.len() + k.len() + u] == #[trigger] (lit(
                "}}",
            ))[u] by {
                assert(w[c.len() + k.len() + u] == (c + k + lit("}}"))[c.len() + k.len() + u]);
            }
            lemma_sub_at(s, i, w, c.len() + k.len() as int, lit("}}"));
        },
    }
}

/// Reads one registered device in exactly the form the renderer
/// writes it.
fn parse_device_strict(s: &[u8], i: usize) -> (r: Option<(MfaDeviceEntry, usize)>)
    requires
        i <= s@.len(),
    ensures
        r matches Some((d, j)) ==> i < j <= s@.len(),
        forall|d: MfaDeviceEntry|
            #![trigger spec_dev_hyp(s@, i as int, d)]
            spec_dev_hyp(s@, i as int, d) ==> (r matches Some((d2, j2)) && d2.same_entry(d) && j2
                == i + spec_render_device(d).len()),
{
    proof {
        assert forall|d: MfaDeviceEntry|
            spec_dev_hyp(s@, i as int, d) implies spec_dev_layout(s@, i as int, d) by {
            lemma_device_layout(s@, i as int, d);
        }
    }
    let j0 = match expect_bytes(s, i, "{\"ykoath\":{\"name\":") {
        Some(j) => j,
        None => {
            return None;
        },
    };
    let (account_name, j1) = match parse_string_at(s, j0) {
        Some(p) => p,
        None => {
            return None;
        },
    };
    let j2 = match expect_bytes(s, j1, "}}") {
        Some(j) => j,
        None => {
            return None;
        },
    };
    Some((MfaDeviceEntry::HardwareOathToken { account_name }, j2))
}

/// One more entry extends the rendered devices section by a
/// separator (after the first) and the entry itself.
proof fn lemma_devs_step(entries: Seq<(Vec<u8>, MfaDeviceEntry)>, m: int)
    requires
        0 <= m < entries.len(),
    ensures
        spec_render_devs(entries.take(m + 1)) == spec_render_devs(entries.take(m)) + (
        if m > 0 {
            lit(",")
        } else {
            Seq::<u8>::empty()
        }) + spec_render_str(entries[m].0@) + lit(":") + spec_render_device(entries[m].1),
{
    let p = entries.take(m + 1);
    assert(p.drop_last() =~= entries.take(m));
    assert(p.last() == entries[m]);
    if m == 0 {
        assert(spec_render_devs(p) =~= spec_render_devs(entries.take(0)) + Seq::<u8>::empty()
            + spec_render_str(entries[0].0@) + lit(":") + spec_render_device(entries[0].1));
    } else {
        assert(spec_render_devs(p) =~= spec_render_devs(entries.take(m)) + lit(",")
            + spec_render_str(entries[m].0@) + lit(":") + spec_render_device(entries[m].1));
    }
}

/// The rendering of a prefix of the device entries is a prefix of
/// the rendering of them all.
proof fn lemma_devs_prefix(entries: Seq<(Vec<u8>, MfaDeviceEntry)>, m: int)
    requires
        0 <= m <= entries.len(),
    ensures
        spec_render_devs(entries.take(m)).len() <= spec_render_devs(entries).len(),
        forall|u: int|
            0 <= u < spec_render_devs(entries.take(m)).len() ==> spec_render_devs(entries)[u]
                == #[trigger] spec_render_devs(entries.take(m))[u],
    decreases entries.len() - m,
{
    if m < entries.len() {
        lemma_devs_step(entries, m);
        lemma_devs_prefix(entries, m + 1);
        let pm = spec_render_devs(entries.take(m));
        let pm1 = spec_render_devs(entries.take(m + 1));
        let sep: Seq<u8> = if m > 0 {
            lit(",")
        } else {
            Seq::<u8>::empty()
        };
        assert forall|u: int| 0 <= u < pm.len() implies pm1[u] == #[trigger] pm[u] by {
            assert(pm1[u] == (pm + sep)[u]);
        }
        assert forall|u: int|
            0 <= u < pm.len() implies spec_render_devs(entries)[u] == #[trigger] pm[u] by {
            assert(spec_render_devs(entries)[u] == pm1[u]);
        }
    } else {
        assert(entries.take(m) =~= entries);
    }
}

/// The strict reader's hypothesis on a devices section.
pub open spec fn spec_devs_hyp(s: Seq<u8>, i: int, entries: Seq<(Vec<u8>, MfaDeviceEntry)>) -> bool {
    &&& unique_keys(entries)
    &&& 0 <= i
    &&& i + spec_render_devs(entries).len() < s.len()
    &&& s.subrange(i, i + spec_render_devs(entries).len() as int) == spec_render_devs(entries)
    &&& s[i + spec_render_devs(entries).len()] != 34
    &&& s[i + spec_render_devs(entries).len()] != 44
}

/// Offset of device entry `m`'s own bytes (past any separator).
pub open spec fn spec_devs_pos(i: int, entries: Seq<(Vec<u8>, MfaDeviceEntry)>, m: int) -> int {
    i + spec_render_devs(entries.take(m)).len() + (if m > 0 {
        1int
    } else {
        0int
    })
}

/// Where device entry `m` of a rendered section stands.
pub open spec fn spec_devs_entry_layout(
    s: Seq<u8>,
    i: int,
    entries: Seq<(Vec<u8>, MfaDeviceEntry)>,
    m: int,
) -> bool {
    &&& (m > 0 ==> s[i + spec_render_devs(entries.take(m)).len()] == 44)
    &&& spec_rendering_at(s, spec_devs_pos(i, entries, m), entries[m].0@)
    &&& s.subrange(
        spec_devs_pos(i, entries, m) + spec_render_str(entries[m].0@).len() as int,
        spec_devs_pos(i, entries, m) + spec_render_str(entries[m].0@).len() + 1,
    ) == lit(":")
    &&& spec_dev_hyp(
        s,
        spec_devs_pos(i, entries, m) + spec_render_str(entries[m].0@).len() + 1,
        entries[m].1,
    )
    &&& spec_devs_pos(i, entries, m) + spec_render_str(entries[m].0@).len() + 1
        + spec_render_device(entries[m].1).len() == i + spec_render_devs(
        entries.take(m + 1),
    ).len()
}

/// Proves the layout of device entry `m` within a rendered section.
#[verifier::rlimit(100)]
#[verifier::spinoff_prover]
proof fn lemma_devs_entry_at(s: Seq<u8>, i: int, entries: Seq<(Vec<u8>, MfaDeviceEntry)>, m: int)
    requires
        spec_devs_hyp(s, i, entries),
        0 <= m < entries.len(),
    ensures
        spec_devs_entry_layout(s, i, entries, m),
{
    lemma_literal_bytes();
    lemma_devs_step(entries, m);
    lemma_devs_prefix(entries, m + 1);
    let w = spec_render_devs(entries);
    let q = spec_render_devs(entries.take(m));
    let sep: Seq<u8> = if m > 0 {
        lit(",")
    } else {
        Seq::<u8>::empty()
    };
    let k = spec_render_str(entries[m].0@);
    let rr = spec_render_device(entries[m].1);
    let p = spec_render_devs(entries.take(m + 1));
    assert(p == q + sep + k + lit(":") + rr);
    let o0 = q.len() as int;
    let o1 = o0 + sep.len();
    let o2 = o1 + k.len();
    let o3 = o2 + 1;
    assert(p.len() == o3 + rr.len());
    if m > 0 {
        assert(w[o0] == p[o0]);
        assert(p[o0] == (q + sep)[o0]);
        assert(s.subrange(i, i + w.len() as int)[o0] == s[i + o0]);
    }
    assert forall|u: int| 0 <= u < k.len() implies w[o1 + u] == #[trigger] k[u] by {
        assert(p[o1 + u] == (q + sep + k)[o1 + u]);
    }
    lemma_sub_at(s, i, w, o1, k);
    assert forall|u: int| 0 <= u < 1 implies w[o2 + u] == #[trigger] (lit(":"))[u] by {
        assert(p[o2 + u] == (q + sep + k + lit(":"))[o2 + u]);
    }
    lemma_sub_at(s, i, w, o2, lit(":"));
    assert forall|u: int| 0 <= u < rr.len() implies w[o3 + u] == #[trigger] rr[u] by {
        assert(p[o3 + u] == rr[u]);
    }
    lemma_sub_at(s, i, w, o3, rr);
}

/// The separator byte after device entry `m`, when another follows.
proof fn lemma_devs_sep_after(s: Seq<u8>, i: int, entries: Seq<(Vec<u8>, MfaDeviceEntry)>, m: int)
    requires
        spec_devs_hyp(s, i, entries),
        0 <= m,
        m + 1 < entries.len(),
    ensures
        s[i + spec_render_devs(entries.take(m + 1)).len()] == 44,
{
    lemma_literal_bytes();
    lemma_devs_step(entries, m + 1);
    lemma_devs_prefix(entries, m + 2);
    let p1 = spec_render_devs(entries.take(m + 1));
    let p2 = spec_render_devs(entries.take(m + 2));
    assert(p2[p1.len() as int] == (p1 + lit(","))[p1.len() as int]);
    assert(spec_render_devs(entries)[p1.len() as int] == 44);
    assert(s.subrange(i, i + spec_render_devs(entries).len() as int)[p1.len() as int] == s[i
        + p1.len()]);
}

/// Reads the entries of a devices section in exactly the form the
/// renderer writes them, stopping before the byte that closes the
/// section.
#[verifier::rlimit(100)]
#[verifier::spinoff_prover]
fn parse_dev_entries_strict(s: &[u8], i: usize) -> (r: Option<
    (Vec<(Vec<u8>, MfaDeviceEntry)>, usize),
>)
    requires
        i <= s@.len(),
    ensures
        r matches Some((es, j)) ==> unique_keys(es@) && i <= j <= s@.len(),
        forall|entries: Seq<(Vec<u8>, MfaDeviceEntry)>|
            #![trigger spec_devs_hyp(s@, i as int, entries)]
            spec_devs_hyp(s@, i as int, entries) ==> (r matches Some((es, j2)) && same_dev_entries(
                es@,
                entries,
            ) && j2 == i + spec_render_devs(entries).len()),
{
    let mut es: Vec<(Vec<u8>, MfaDeviceEntry)> = Vec::new();
    let mut j = i;
    proof {
        assert forall|entries: Seq<(Vec<u8>, MfaDeviceEntry)>|
            #![trigger spec_devs_hyp(s@, i as int, entries)]
            spec_devs_hyp(s@, i as int, entries) implies (entries.len() == 0
            ==> spec_render_devs(entries).len() == 0 && s@[i as int] != 34) && (entries.len() > 0
            ==> i + 1 < s@.len() && s@[i as int] == 34 && same_dev_entries(es@, entries.take(0))
            && i == spec_devs_pos(i as int, entries, 0)) by {
            assert(entries.take(0) =~= Seq::<(Vec<u8>, MfaDeviceEntry)>::empty());
            if entries.len() > 0 {
                lemma_devs_entry_at(s@, i as int, entries, 0);
                lemma_shell_bytes(s@, i as int, entries[0].0@);
            }
        }
    }
    if !(j < s.len() && s[j] == 34) {
        proof {
            assert forall|entries: Seq<(Vec<u8>, MfaDeviceEntry)>|
                spec_devs_hyp(s@, i as int, entries) implies (same_dev_entries(es@, entries) && j
                == i + spec_render_devs(entries).len()) by {
                if entries.len() > 0 {
                    assert(false);
                }
            }
        }
        return Some((es, j));
    }
    loop
        invariant_except_break
            forall|entries: Seq<(Vec<u8>, MfaDeviceEntry)>|
                #![trigger spec_devs_hyp(s@, i as int, entries)]
                spec_devs_hyp(s@, i as int, entries) ==> (es@.len() < entries.len()
                    && same_dev_entries(es@, entries.take(es@.len() as int)) && j == spec_devs_pos(
                    i as int,
                    entries,
                    es@.len() as int,
                )),
        invariant
            i < s@.len(),
            i <= j <= s@.len(),
            unique_keys(es@),
        ensures
            i <= j <= s@.len(),
            unique_keys(es@),
            forall|entries: Seq<(Vec<u8>, MfaDeviceEntry)>|
                #![trigger spec_devs_hyp(s@, i as int, entries)]
                spec_devs_hyp(s@, i as int, entries) ==> (same_dev_entries(es@, entries) && j == i
                    + spec_render_devs(entries).len()),
        decreases s@.len() - j,
    {
        let ghost es0 = es@;
        proof {
            assert forall|entries: Seq<(Vec<u8>, MfaDeviceEntry)>|
                spec_devs_hyp(s@, i as int, entries) implies spec_devs_entry_layout(
                s@,
                i as int,
                entries,
                es0.len() as int,
            ) by {
                lemma_devs_entry_at(s@, i as int, entries, es0.len() as int);
            }
        }
        let (key, jk) = match parse_string_at(s, j) {
            Some(p) => p,
            None => {
                return None;
            },
        };
        let jc = match expect_bytes(s, jk, ":") {
            Some(p) => p,
            None => {
                return None;
            },
        };
        let (dev, jr) = match parse_device_strict(s, jc) {
            Some(p) => p,
            None => {
                return None;
            },
        };
        if lookup(&es, key.as_slice()).is_some() {
            proof {
                crate::store::lemma_lookup(es@, key@);
                assert forall|entries: Seq<(Vec<u8>, MfaDeviceEntry)>|
                    spec_devs_hyp(s@, i as int, entries) implies false by {
                    let t = choose|t: int| 0 <= t < es@.len() && !(es@[t].0@ != key@);
                }
            }
            return None;
        }
        proof {
            crate::store::lemma_lookup(es@, key@);
            crate::store::lemma_insert_push(es@, key, dev);
        }
        es.push((key, dev));
        j = jr;
        let ghost jmid = j as int;
        proof {
            assert forall|entries: Seq<(Vec<u8>, MfaDeviceEntry)>|
                spec_devs_hyp(s@, i as int, entries) implies (es@.len() <= entries.len()
                && same_dev_entries(es@, entries.take(es@.len() as int)) && jmid == i
                + spec_render_devs(entries.take(es@.len() as int)).len()) by {
                assert(es@.drop_last() == es0);
                assert(entries.take(es0.len() as int + 1).drop_last() =~= entries.take(
                    es0.len() as int,
                ));
                assert(entries.take(es0.len() as int + 1).last() == entries[es0.len() as int]);
                assert forall|t: int| 0 <= t < es@.len() implies ((#[trigger] es@[t]).0@
                    == entries.take(es@.len() as int)[t].0@ && es@[t].1.same_entry(
                    entries.take(es@.len() as int)[t].1,
                )) by {
                    if t < es0.len() {
                        assert(es@[t] == es0[t]);
                        assert(entries.take(es0.len() as int)[t] == entries.take(
                            es@.len() as int,
                        )[t]);
                    }
                }
            }
        }
        if j < s.len() && s[j] == 44 {
            j += 1;
            if !(j < s.len() && s[j] == 34) {
                proof {
                    assert forall|entries: Seq<(Vec<u8>, MfaDeviceEntry)>|
                        spec_devs_hyp(s@, i as int, entries) implies false by {
                        if es@.len() < entries.len() {
                            lemma_devs_sep_after(s@, i as int, entries, es0.len() as int);
                            lemma_devs_entry_at(s@, i as int, entries, es@.len() as int);
                            lemma_shell_bytes(
                                s@,
                                spec_devs_pos(i as int, entries, es@.len() as int),
                                entries[es@.len() as int].0@,
                            );
                        } else {
                            assert(entries.take(es@.len() as int) =~= entries);
                        }
                    }
                }
                return None;
            }
            proof {
                assert forall|entries: Seq<(Vec<u8>, MfaDeviceEntry)>|
                    spec_devs_hyp(s@, i as int, entries) implies (es@.len() < entries.len() && j
                    == spec_devs_pos(i as int, entries, es@.len() as int)) by {
                    if es@.len() < entries.len() {
                    } else {
                        assert(entries.take(es@.len() as int) =~= entries);
                    }
                }
            }
        } else {
            proof {
                assert forall|entries: Seq<(Vec<u8>, MfaDeviceEntry)>|
                    spec_devs_hyp(s@, i as int, entries) implies (same_dev_entries(es@, entries)
                    && j == i + spec_render_devs(entries).len()) by {
                    if es@.len() < entries.len() {
                        lemma_devs_sep_after(s@, i as int, entries, es0.len() as int);
                        lemma_devs_prefix(entries, es@.len() as int);
                    } else {
                        assert(entries.take(es@.len() as int) =~= entries);
                    }
                }
            }
            break ;
        }
    }
    Some((es, j))
}

/// A byte the renderer writes as itself, without an escape.
pub open spec fn plain_byte(b: u8) -> bool {
    b >= 32 && b != 34 && b != 92
}

pub open spec fn all_plain(s: Seq<u8>) -> bool {
    forall|t: int| 0 <= t < s.len() ==> plain_byte(#[trigger] s[t])
}

/// Escaping leaves a string of plain bytes as it is.
proof fn lemma_escape_plain(s: Seq<u8>)
    requires
        all_plain(s),
    ensures
        spec_escape(s) == s,
    decreases s.len(),
{
    if s.len() > 0 {
        assert(all_plain(s.drop_last())) by {
            assert(forall|t: int| 0 <= t < s.len() - 1 ==> s.drop_last()[t] == #[trigger] s[t]);
        }
        lemma_escape_plain(s.drop_last());
        assert(plain_byte(s.last()));
        assert(spec_escape(s) =~= s);
    }
}

/// The bytes of the `credentials` key.
pub open spec fn spec_kw_credentials() -> Seq<u8> {
    "credentials".spec_bytes()
}

/// The bytes of the `mfa-devices` key.
pub open spec fn spec_kw_mfa_devices() -> Seq<u8> {
    "mfa-devices".spec_bytes()
}

/// A credentials section as a document member.
pub open spec fn spec_cred_section(entries: Seq<(Vec<u8>, CredentialRecord)>) -> Seq<u8> {
    spec_render_str(spec_kw_credentials()) + seq![58u8, 123u8] + spec_render_creds(entries) + seq![
        125u8,
    ]
}

/// A devices section as a document member.
pub open spec fn spec_dev_section(entries: Seq<(Vec<u8>, MfaDeviceEntry)>) -> Seq<u8> {
    spec_render_str(spec_kw_mfa_devices()) + seq![58u8, 123u8] + spec_render_devs(entries) + seq![
        125u8,
    ]
}

/// A document of the canonical family: each section present or
/// absent, in either order. The renderer's own output is the member
/// of this family with both sections present, credentials first.
pub open spec fn spec_render_doc(
    cred: Option<Seq<(Vec<u8>, CredentialRecord)>>,
    dev: Option<Seq<(Vec<u8>, MfaDeviceEntry)>>,
    dev_first: bool,
) -> Seq<u8> {
    let body = match (cred, dev) {
        (None, None) => Seq::<u8>::empty(),
        (Some(c), None) => spec_cred_section(c),
        (None, Some(d)) => spec_dev_section(d),
        (Some(c), Some(d)) => if dev_first {
            spec_dev_section(d) + seq![44u8] + spec_cred_section(c)
        } else {
            spec_cred_section(c) + seq![44u8] + spec_dev_section(d)
        },
    };
    seq![123u8] + body + seq![125u8]
}

/// Well-formedness of the mappings a document of the family holds.
pub open spec fn spec_doc_wf(
    cred: Option<Seq<(Vec<u8>, CredentialRecord)>>,
    dev: Option<Seq<(Vec<u8>, MfaDeviceEntry)>>,
) -> bool {
    &&& (cred matches Some(c) ==> unique_keys(c) && (forall|t: int|
        0 <= t < c.len() ==> (#[trigger] c[t]).1.well_formed()))
    &&& (dev matches Some(d) ==> unique_keys(d))
}

/// The mapping a document's optional section denotes.
pub open spec fn spec_creds_or_empty(
    cred: Option<Seq<(Vec<u8>, CredentialRecord)>>,
) -> Seq<(Vec<u8>, CredentialRecord)> {
    match cred {
        Some(c) => c,
        None => Seq::empty(),
    }
}

pub open spec fn spec_devs_or_empty(
    dev: Option<Seq<(Vec<u8>, MfaDeviceEntry)>>,
) -> Seq<(Vec<u8>, MfaDeviceEntry)> {
    match dev {
        Some(d) => d,
        None => Seq::empty(),
    }
}

/// The two section keys start with different letters.
proof fn lemma_kw_bytes()
    ensures
        spec_kw_credentials().len() == 11,
        spec_kw_credentials()[0] == 99,
        spec_kw_mfa_devices().len() == 11,
        spec_kw_mfa_devices()[0] == 109,
        spec_kw_credentials() != spec_kw_mfa_devices(),
{
    broadcast use vstd::utf8::is_ascii_chars_encode_utf8;

    reveal_strlit("credentials");
    assert(vstd::utf8::is_ascii_chars("credentials"@));
    reveal_strlit("mfa-devices");
    assert(vstd::utf8::is_ascii_chars("mfa-devices"@));
}

/// Where one section's pieces stand, given its member bytes at `p`.
pub open spec fn spec_cred_section_at(
    s: Seq<u8>,
    p: int,
    c: Seq<(Vec<u8>, CredentialRecord)>,
) -> bool {
    let kw = spec_render_str(spec_kw_credentials());
    {
        &&& spec_rendering_at(s, p, spec_kw_credentials())
        &&& s[p + kw.len()] == 58
        &&& s[p + kw.len() + 1] == 123
        &&& spec_creds_hyp(s, p + kw.len() + 2, c)
        &&& s[p + kw.len() + 2 + spec_render_creds(c).len()] == 125
        &&& p + kw.len() + 2 + spec_render_creds(c).len() + 1 == p + spec_cred_section(c).len()
    }
}

pub open spec fn spec_dev_section_at(s: Seq<u8>, p: int, d: Seq<(Vec<u8>, MfaDeviceEntry)>) -> bool {
    let kw = spec_render_str(spec_kw_mfa_devices());
    {
        &&& spec_rendering_at(s, p, spec_kw_mfa_devices())
        &&& s[p + kw.len()] == 58
        &&& s[p + kw.len() + 1] == 123
        &&& spec_devs_hyp(s, p + kw.len() + 2, d)
        &&& s[p + kw.len() + 2 + spec_render_devs(d).len()] == 125
        &&& p + kw.len() + 2 + spec_render_devs(d).len() + 1 == p + spec_dev_section(d).len()
    }
}

/// Places the pieces of a credentials section whose bytes stand at `p`.
#[verifier::rlimit(100)]
#[verifier::spinoff_prover]
proof fn lemma_cred_section_at(s: Seq<u8>, p: int, c: Seq<(Vec<u8>, CredentialRecord)>)
    requires
        0 <= p,
        p + spec_cred_section(c).len() < s.len(),
        s.subrange(p, p + spec_cred_section(c).len() as int) == spec_cred_section(c),
        unique_keys(c),
        forall|t: int| 0 <= t < c.len() ==> (#[trigger] c[t]).1.well_formed(),
    ensures
        spec_cred_section_at(s, p, c),
{
    let w = spec_cred_section(c);
    let kw = spec_render_str(spec_kw_credentials());
    let rc = spec_render_creds(c);
    assert(w == kw + seq![58u8, 123u8] + rc + seq![125u8]);
    let o1 = kw.len() as int;
    let o2 = o1 + 2;
    let o3 = o2 + rc.len();
    assert(s.subrange(p, p + w.len() as int) == w);
    assert forall|u: int| 0 <= u < kw.len() implies w[0 + u] == #[trigger] kw[u] by {}
    lemma_sub_at(s, p, w, 0, kw);
    assert(w[o1] == (kw + seq![58u8, 123u8])[o1]);
    assert(w[o1 + 1] == (kw + seq![58u8, 123u8])[o1 + 1]);
    assert(s.subrange(p, p + w.len() as int)[o1] == s[p + o1]);
    assert(s.subrange(p, p + w.len() as int)[o1 + 1] == s[p + o1 + 1]);
    assert forall|u: int| 0 <= u < rc.len() implies w[o2 + u] == #[trigger] rc[u] by {
        assert(w[o2 + u] == (kw + seq![58u8, 123u8] + rc)[o2 + u]);
    }
    lemma_sub_at(s, p, w, o2, rc);
    assert(w[o3] == 125);
    assert(s.subrange(p, p + w.len() as int)[o3] == s[p + o3]);
}

/// Places the pieces of a devices section whose bytes stand at `p`.
#[verifier::rlimit(100)]
#[verifier::spinoff_prover]
proof fn lemma_dev_section_at(s: Seq<u8>, p: int, d: Seq<(Vec<u8>, MfaDeviceEntry)>)
    requires
        0 <= p,
        p + spec_dev_section(d).len() < s.len(),
        s.subrange(p, p + spec_dev_section(d).len() as int) == spec_dev_section(d),
        unique_keys(d),
    ensures
        spec_dev_section_at(s, p, d),
{
    let w = spec_dev_section(d);
    let kw = spec_render_str(spec_kw_mfa_devices());
    let rd = spec_render_devs(d);
    assert(w == kw + seq![58u8, 123u8] + rd + seq![125u8]);
    let o1 = kw.len() as int;
    let o2 = o1 + 2;
    let o3 = o2 + rd.len();
    assert(s.subrange(p, p + w.len() as int) == w);
    assert forall|u: int| 0 <= u < kw.len() implies w[0 + u] == #[trigger] kw[u] by {}
    lemma_sub_at(s, p, w, 0, kw);
    assert(w[o1] == (kw + seq![58u8, 123u8])[o1]);
    assert(w[o1 + 1] == (kw + seq![58u8, 123u8])[o1 + 1]);
    assert(s.subrange(p, p + w.len() as int)[o1] == s[p + o1]);
    assert(s.subrange(p, p + w.len() as int)[o1 + 1] == s[p + o1 + 1]);
    assert forall|u: int| 0 <= u < rd.len() implies w[o2 + u] == #[trigger] rd[u] by {
        assert(w[o2 + u] == (kw + seq![58u8, 123u8] + rd)[o2 + u]);
    }
    lemma_sub_at(s, p, w, o2, rd);
    assert(w[o3] == 125);
    assert(s.subrange(p, p + w.len() as int)[o3] == s[p + o3]);
}


/// Where the pieces of a document of the family stand.
pub open spec fn spec_doc_layout(
    s: Seq<u8>,
    cred: Option<Seq<(Vec<u8>, CredentialRecord)>>,
    dev: Option<Seq<(Vec<u8>, MfaDeviceEntry)>>,
    dev_first: bool,
) -> bool {
    &&& s.len() >= 2
    &&& s[0] == 123
    &&& s[s.len() - 1] == 125
    &&& match (cred, dev) {
        (None, None) => s.len() == 2,
        (Some(c), None) => {
            &&& s.len() == 2 + spec_cred_section(c).len()
            &&& s[1] == 34
            &&& spec_cred_section_at(s, 1, c)
        },
        (None, Some(d)) => {
            &&& s.len() == 2 + spec_dev_section(d).len()
            &&& s[1] == 34
            &&& spec_dev_section_at(s, 1, d)
        },
        (Some(c), Some(d)) => {
            &&& s.len() == 3 + spec_cred_section(c).len() + spec_dev_section(d).len()
            &&& s[1] == 34
            &&& if dev_first {
                &&& spec_dev_section_at(s, 1, d)
                &&& s[(1 + spec_dev_section(d).len()) as int] == 44
                &&& spec_cred_section_at(s, (2 + spec_dev_section(d).len()) as int, c)
            } else {
                &&& spec_cred_section_at(s, 1, c)
                &&& s[(1 + spec_cred_section(c).len()) as int] == 44
                &&& spec_dev_section_at(s, (2 + spec_cred_section(c).len()) as int, d)
            }
        },
    }
}

/// Proves the layout of a document of the family.
#[verifier::rlimit(100)]
#[verifier::spinoff_prover]
proof fn lemma_doc_layout(
    s: Seq<u8>,
    cred: Option<Seq<(Vec<u8>, CredentialRecord)>>,
    dev: Option<Seq<(Vec<u8>, MfaDeviceEntry)>>,
    dev_first: bool,
)
    requires
        spec_doc_wf(cred, dev),
        s == spec_render_doc(cred, dev, dev_first),
    ensures
        spec_doc_layout(s, cred, dev, dev_first),
{
    let body = match (cred, dev) {
        (None, None) => Seq::<u8>::empty(),
        (Some(c), None) => spec_cred_section(c),
        (None, Some(d)) => spec_dev_section(d),
        (Some(c), Some(d)) => if dev_first {
            spec_dev_section(d) + seq![44u8] + spec_cred_section(c)
        } else {
            spec_cred_section(c) + seq![44u8] + spec_dev_section(d)
        },
    };
    assert(s == seq![123u8] + body + seq![125u8]);
    assert(s.subrange(0, s.len() as int) =~= s);
    assert(s[0] == (seq![123u8] + body)[0]);
    assert(s[s.len() - 1] == 125);
    assert forall|u: int| 0 <= u < body.len() implies s[1 + u] == #[trigger] body[u] by {
        assert(s[1 + u] == (seq![123u8] + body)[1 + u]);
    }
    lemma_sub_at(s, 0, s, 1, body);
    match (cred, dev) {
        (None, None) => {},
        (Some(c), None) => {
            lemma_cred_section_at(s, 1, c);
            lemma_shell_bytes(s, 1, spec_kw_credentials());
        },
        (None, Some(d)) => {
            lemma_dev_section_at(s, 1, d);
            lemma_shell_bytes(s, 1, spec_kw_mfa_devices());
        },
        (Some(c), Some(d)) => {
            let sc = spec_cred_section(c);
            let sd = spec_dev_section(d);
            if dev_first {
                assert forall|u: int| 0 <= u < sd.len() implies body[0 + u] == #[trigger] sd[u] by {}
                lemma_sub_at(s, 1, body, 0, sd);
                assert(body[sd.len() as int] == (sd + seq![44u8])[sd.len() as int]);
                assert(s.subrange(1, 1 + body.len() as int)[sd.len() as int] == s[(1
                    + sd.len()) as int]);
                assert forall|u: int|
                    0 <= u < sc.len() implies body[sd.len() + 1 + u] == #[trigger] sc[u] by {
                    assert(body[sd.len() + 1 + u] == sc[u]);
                }
                lemma_sub_at(s, 1, body, (sd.len() + 1) as int, sc);
                lemma_dev_section_at(s, 1, d);
                lemma_cred_section_at(s, (2 + sd.len()) as int, c);
                lemma_shell_bytes(s, 1, spec_kw_mfa_devices());
            } else {
                assert forall|u: int| 0 <= u < sc.len() implies body[0 + u] == #[trigger] sc[u] by {}
                lemma_sub_at(s, 1, body, 0, sc);
                assert(body[sc.len() as int] == (sc + seq![44u8])[sc.len() as int]);
                assert(s.subrange(1, 1 + body.len() as int)[sc.len() as int] == s[(1
                    + sc.len()) as int]);
                assert forall|u: int|
                    0 <= u < sd.len() implies body[sc.len() + 1 + u] == #[trigger] sd[u] by {
                    assert(body[sc.len() + 1 + u] == sd[u]);
                }
                lemma_sub_at(s, 1, body, (sc.len() + 1) as int, sd);
                lemma_cred_section_at(s, 1, c);
                lemma_dev_section_at(s, (2 + sc.len()) as int, d);
                lemma_shell_bytes(s, 1, spec_kw_credentials());
            }
        },
    }
}

/// One parsed section of the document.
enum SectionVal {
    Creds(Vec<(Vec<u8>, CredentialRecord)>),
    Devs(Vec<(Vec<u8>, MfaDeviceEntry)>),
}

/// Reads one section (its key, `:{`, entries, `}`) in exactly the
/// form the renderer writes it.
#[verifier::rlimit(100)]
#[verifier::spinoff_prover]
fn parse_section_strict(s: &[u8], j: usize) -> (r: Option<(SectionVal, usize)>)
    requires
        j <= s@.len(),
    ensures
        r matches Some((v, j2)) ==> j < j2 <= s@.len() && (match v {
            SectionVal::Creds(es) => unique_keys(es@) && (forall|t: int|
                0 <= t < es@.len() ==> (#[trigger] es@[t]).1.well_formed()),
            SectionVal::Devs(es) => unique_keys(es@),
        }),
        forall|c: Seq<(Vec<u8>, CredentialRecord)>|
            #![trigger spec_cred_section_at(s@, j as int, c)]
            spec_cred_section_at(s@, j as int, c) ==> (r matches Some((v, j2)) && (
            v matches SectionVal::Creds(es) && same_cred_entries(es@, c)) && j2 == j
                + spec_cred_section(c).len()),
        forall|d: Seq<(Vec<u8>, MfaDeviceEntry)>|
            #![trigger spec_dev_section_at(s@, j as int, d)]
            spec_dev_section_at(s@, j as int, d) ==> (r matches Some((v, j2)) && (
            v matches SectionVal::Devs(es) && same_dev_entries(es@, d)) && j2 == j
                + spec_dev_section(d).len()),
{
    proof {
        lemma_kw_bytes();
    }
    let (key, jk) = match parse_string_at(s, j) {
        Some(p) => p,
        None => {
            return None;
        },
    };
    if s.len() - jk < 2 {
        return None;
    }
    if !(s[jk] == 58 && s[jk + 1] == 123) {
        return None;
    }
    if bytes_eq(key.as_slice(), "credentials".as_bytes()) {
        let (es, j2) = match parse_cred_entries_strict(s, jk + 2) {
            Some(p) => p,
            None => {
                return None;
            },
        };
        if !(j2 < s.len() && s[j2] == 125) {
            return None;
        }
        proof {
            assert forall|d: Seq<(Vec<u8>, MfaDeviceEntry)>|
                spec_dev_section_at(s@, j as int, d) implies false by {}
        }
        Some((SectionVal::Creds(es), j2 + 1))
    } else if bytes_eq(key.as_slice(), "mfa-devices".as_bytes()) {
        let (es, j2) = match parse_dev_entries_strict(s, jk + 2) {
            Some(p) => p,
            None => {
                return None;
            },
        };
        if !(j2 < s.len() && s[j2] == 125) {
            return None;
        }
        proof {
            assert forall|c: Seq<(Vec<u8>, CredentialRecord)>|
                spec_cred_section_at(s@, j as int, c) implies false by {}
        }
        Some((SectionVal::Devs(es), j2 + 1))
    } else {
        None
    }
}

/// The renderer's own output is the family member with both sections
/// present, credentials first.
#[verifier::rlimit(100)]
#[verifier::spinoff_prover]
proof fn lemma_render_store_is_doc(st: Store)
    ensures
        spec_render_store(st) == spec_render_doc(
            Some(st.credentials@),
            Some(st.mfa_devices@),
            false,
        ),
{
    broadcast use vstd::utf8::is_ascii_chars_encode_utf8;

    reveal_strlit("{\"credentials\":{");
    assert(vstd::utf8::is_ascii_chars("{\"credentials\":{"@));
    reveal_strlit("},\"mfa-devices\":{");
    assert(vstd::utf8::is_ascii_chars("},\"mfa-devices\":{"@));
    reveal_strlit("}}");
    assert(vstd::utf8::is_ascii_chars("}}"@));
    reveal_strlit("credentials");
    assert(vstd::utf8::is_ascii_chars("credentials"@));
    reveal_strlit("mfa-devices");
    assert(vstd::utf8::is_ascii_chars("mfa-devices"@));
    assert(all_plain(spec_kw_credentials()));
    assert(all_plain(spec_kw_mfa_devices()));
    lemma_escape_plain(spec_kw_credentials());
    lemma_escape_plain(spec_kw_mfa_devices());
    assert(lit("{\"credentials\":{") =~= seq![123u8] + spec_render_str(spec_kw_credentials())
        + seq![58u8, 123u8]);
    assert(lit("},\"mfa-devices\":{") =~= seq![125u8, 44u8] + spec_render_str(
        spec_kw_mfa_devices(),
    ) + seq![58u8, 123u8]);
    assert(lit("}}") =~= seq![125u8, 125u8]);
    assert(spec_render_store(st) =~= spec_render_doc(
        Some(st.credentials@),
        Some(st.mfa_devices@),
        false,
    ));
}

/// Reads a whole document of the canonical family: `{`, one or two
/// sections (each kind at most once, in either order), `}`.
/// Everything else — whitespace, unknown members, the other JSON
/// spellings — is left to the tolerant reader.
#[verifier::rlimit(100)]
#[verifier::spinoff_prover]
fn parse_store_strict(s: &[u8]) -> (r: Option<Store>)
    ensures
        r matches Some(st) ==> st.well_formed(),
        forall|
            cred: Option<Seq<(Vec<u8>, CredentialRecord)>>,
            dev: Option<Seq<(Vec<u8>, MfaDeviceEntry)>>,
            dev_first: bool,
        |
            #![trigger spec_render_doc(cred, dev, dev_first)]
            spec_doc_wf(cred, dev) && (cred is Some || dev is Some) && s@ == spec_render_doc(
                cred,
                dev,
                dev_first,
            ) ==> (r matches Some(st2) && same_cred_entries(
                st2.credentials@,
                spec_creds_or_empty(cred),
            ) && same_dev_entries(st2.mfa_devices@, spec_devs_or_empty(dev))),
{
    proof {
        assert forall|
            cred: Option<Seq<(Vec<u8>, CredentialRecord)>>,
            dev: Option<Seq<(Vec<u8>, MfaDeviceEntry)>>,
            dev_first: bool,
        |
            #![trigger spec_render_doc(cred, dev, dev_first)]
            spec_doc_wf(cred, dev) && s@ == spec_render_doc(
                cred,
                dev,
                dev_first,
            ) implies spec_doc_layout(s@, cred, dev, dev_first) by {
            lemma_doc_layout(s@, cred, dev, dev_first);
        }
    }
    if !(s.len() >= 2 && s[0] == 123) {
        return None;
    }
    let mut credentials: Vec<(Vec<u8>, CredentialRecord)> = Vec::new();
    let mut mfa_devices: Vec<(Vec<u8>, MfaDeviceEntry)> = Vec::new();
    let mut got_creds = false;
    let mut got_devs = false;
    let mut j: usize = 1;
    match parse_section_strict(s, j) {
        Some((SectionVal::Creds(es), j2)) => {
            credentials = es;
            got_creds = true;
            j = j2;
        },
        Some((SectionVal::Devs(es), j2)) => {
            mfa_devices = es;
            got_devs = true;
            j = j2;
        },
        None => {
            return None;
        },
    }
    let ghost j1 = j as int;
    let ghost creds1 = credentials@;
    let ghost devs1 = mfa_devices@;
    let ghost gc1 = got_creds;
    let ghost gd1 = got_devs;
    proof {
        assert forall|
            cred: Option<Seq<(Vec<u8>, CredentialRecord)>>,
            dev: Option<Seq<(Vec<u8>, MfaDeviceEntry)>>,
            dev_first: bool,
        |
            #![trigger spec_render_doc(cred, dev, dev_first)]
            spec_doc_wf(cred, dev) && (cred is Some || dev is Some) && s@ == spec_render_doc(
                cred,
                dev,
                dev_first,
            ) implies (match (cred, dev) {
            (Some(c), None) => gc1 && !gd1 && same_cred_entries(creds1, c) && devs1.len() == 0 && j1
                == 1 + spec_cred_section(c).len(),
            (None, Some(d)) => gd1 && !gc1 && same_dev_entries(devs1, d) && creds1.len() == 0 && j1
                == 1 + spec_dev_section(d).len(),
            (Some(c), Some(d)) => if dev_first {
                gd1 && !gc1 && same_dev_entries(devs1, d) && creds1.len() == 0 && j1 == 1
                    + spec_dev_section(d).len()
            } else {
                gc1 && !gd1 && same_cred_entries(creds1, c) && devs1.len() == 0 && j1 == 1
                    + spec_cred_section(c).len()
            },
            (None, None) => true,
        }) by {}
    }
    if j < s.len() && s[j] == 44 {
        j += 1;
        match parse_section_strict(s, j) {
            Some((SectionVal::Creds(es), j2)) => {
                if got_creds {
                    return None;
                }
                credentials = es;
                got_creds = true;
                j = j2;
            },
            Some((SectionVal::Devs(es), j2)) => {
                if got_devs {
                    return None;
                }
                mfa_devices = es;
                got_devs = true;
                j = j2;
            },
            None => {
                return None;
            },
        }
    }
    proof {
        assert forall|
            cred: Option<Seq<(Vec<u8>, CredentialRecord)>>,
            dev: Option<Seq<(Vec<u8>, MfaDeviceEntry)>>,
            dev_first: bool,
        |
            #![trigger spec_render_doc(cred, dev, dev_first)]
            spec_doc_wf(cred, dev) && (cred is Some || dev is Some) && s@ == spec_render_doc(
                cred,
                dev,
                dev_first,
            ) implies (same_cred_entries(credentials@, spec_creds_or_empty(cred))
            && same_dev_entries(mfa_devices@, spec_devs_or_empty(dev)) && j + 1 == s@.len()
            && s@[j as int] == 125) by {}
    }
    if !(s.len() - j == 1 && s[j] == 125) {
        return None;
    }
    Some(Store { credentials, mfa_devices })
}

// ------------------------------------------------------------------
// The parser.
// ------------------------------------------------------------------

/// A blank, tab or line-break byte.
pub open spec fn spec_is_ws(b: u8) -> bool {
    b == 32 || b == 9 || b == 10 || b == 13
}

/// Advances past blanks, tabs and line breaks; a position at a
/// non-blank byte (or at the end) is left alone.
fn skip_ws(s: &[u8], i: usize) -> (j: usize)
    requires
        i <= s@.len(),
    ensures
        i <= j <= s@.len(),
        i == s@.len() || !spec_is_ws(s@[i as int]) ==> j == i,
{
    let mut j = i;
    while j < s.len() && (s[j] == 32 || s[j] == 9 || s[j] == 10 || s[j] == 13)
        invariant
            i <= j <= s@.len(),
            forall|k: int| i <= k < j ==> spec_is_ws(#[trigger] s@[k]),
        decreases s@.len() - j,
    {
        j += 1;
    }
    j
}

/// Checks that the bytes of `w` stand exactly at `i` and advances
/// past them; the success condition is an iff, so a mismatch is as
/// conclusive as a match.
fn expect_bytes(s: &[u8], i: usize, w: &str) -> (r: Option<usize>)
    requires
        i <= s@.len(),
    ensures
        r matches Some(j) ==> j == i + lit(w).len() && i <= j <= s@.len(),
        (r is Some) <==> (i + lit(w).len() <= s@.len() && s@.subrange(
            i as int,
            i + lit(w).len() as int,
        ) == lit(w)),
{
    let b = w.as_bytes();
    let n = s.len();
    if b.len() > n - i {
        return None;
    }
    let mut t: usize = 0;
    while t < b.len()
        invariant
            n == s@.len(),
            i + b@.len() <= n,
            b@ == lit(w),
            t <= b@.len(),
            forall|u: int| 0 <= u < t ==> s@[i + u] == #[trigger] b@[u],
        decreases b@.len() - t,
    {
        if s[i + t] != b[t] {
            proof {
                assert(s@.subrange(i as int, i + lit(w).len() as int)[t as int] != lit(w)[t as int]);
            }
            return None;
        }
        t += 1;
    }
    proof {
        assert(s@.subrange(i as int, i + lit(w).len() as int) =~= lit(w));
    }
    Some(i + b.len())
}

/// The value of a hexadecimal digit character, 0 for any other byte.
pub open spec fn spec_hex(b: u8) -> u8 {
    if 48 <= b <= 57 {
        (b - 48) as u8
    } else if 97 <= b <= 102 {
        (b - 87) as u8
    } else if 65 <= b <= 70 {
        (b - 55) as u8
    } else {
        0
    }
}

/// The value of a hexadecimal digit character.
fn hex_val(b: u8) -> (r: Option<u8>)
    ensures
        r is Some <==> (48 <= b <= 57 || 97 <= b <= 102 || 65 <= b <= 70),
        r matches Some(v) ==> v == spec_hex(b) && v < 16,
{
    if 48 <= b && b <= 57 {
        Some(b - 48)
    } else if 97 <= b && b <= 102 {
        Some(b - 87)
    } else if 65 <= b && b <= 70 {
        Some(b - 55)
    } else {
        None
    }
}

/// Escaping a concatenation escapes each part.
proof fn lemma_escape_concat(a: Seq<u8>, b: Seq<u8>)
    ensures
        spec_escape(a + b) == spec_escape(a) + spec_escape(b),
    decreases b.len(),
{
    if b.len() == 0 {
        assert(a + b =~= a);
        assert(spec_escape(a) + spec_escape(b) =~= spec_escape(a));
    } else {
        lemma_escape_concat(a, b.drop_last());
        assert((a + b).drop_last() =~= a + b.drop_last());
        assert((a + b).last() == b.last());
        assert(spec_escape(a + b) =~= spec_escape(a) + spec_escape(b));
    }
}

/// Escaping one more byte appends that byte's escape.
proof fn lemma_escape_take_step(v: Seq<u8>, k: int)
    requires
        0 <= k < v.len(),
    ensures
        spec_escape(v.take(k + 1)) == spec_escape(v.take(k)) + spec_escape_byte(v[k]),
{
    lemma_escape_concat(v.take(k), seq![v[k]]);
    assert(v.take(k + 1) =~= v.take(k) + seq![v[k]]);
    assert(seq![v[k]].drop_last() =~= Seq::<u8>::empty());
    reveal_with_fuel(spec_escape, 3);
    assert(spec_escape(Seq::<u8>::empty()) =~= Seq::<u8>::empty());
    assert(spec_escape(seq![v[k]]) =~= Seq::<u8>::empty() + spec_escape_byte(v[k]));
    assert(Seq::<u8>::empty() + spec_escape_byte(v[k]) =~= spec_escape_byte(v[k]));
}

/// A prefix never escapes to more than the whole.
proof fn lemma_escape_take_len(v: Seq<u8>, k: int)
    requires
        0 <= k <= v.len(),
    ensures
        spec_escape(v.take(k)).len() <= spec_escape(v).len(),
        k < v.len() ==> spec_escape(v.take(k)).len() + spec_escape_byte(v[k]).len()
            <= spec_escape(v).len(),
{
    lemma_escape_concat(v.take(k), v.skip(k));
    assert(v.take(k) + v.skip(k) =~= v);
    if k < v.len() {
        assert(v.skip(k).len() > 0);
        lemma_escape_take_step(v.skip(k), 0);
        assert(v.skip(k).take(1) =~= seq![v[k]]);
        assert(v.skip(k).take(0) =~= Seq::<u8>::empty());
        lemma_escape_concat(v.skip(k).take(1), v.skip(k).skip(1));
        assert(v.skip(k).take(1) + v.skip(k).skip(1) =~= v.skip(k));
        assert(seq![v[k]].drop_last() =~= Seq::<u8>::empty());
        reveal_with_fuel(spec_escape, 3);
        assert(spec_escape(Seq::<u8>::empty()) =~= Seq::<u8>::empty());
        assert(spec_escape(seq![v[k]]) =~= Seq::<u8>::empty() + spec_escape_byte(v[k]));
        assert(Seq::<u8>::empty() + spec_escape_byte(v[k]) =~= spec_escape_byte(v[k]));
    }
}

/// The rendering of `v` stands in `s` at position `i`.
pub open spec fn spec_rendering_at(s: Seq<u8>, i: int, v: Seq<u8>) -> bool {
    &&& i + spec_render_str(v).len() <= s.len()
    &&& s.subrange(i, i + spec_render_str(v).len() as int) == spec_render_str(v)
}

/// The shell of a rendered string: its quotes and overall length.
proof fn lemma_shell_bytes(s: Seq<u8>, i: int, v: Seq<u8>)
    requires
        0 <= i,
        spec_rendering_at(s, i, v),
    ensures
        spec_render_str(v).len() == spec_escape(v).len() + 2,
        s[i] == 34,
        s[i + 1 + spec_escape(v).len()] == 34,
        i + 1 + spec_escape(v).len() < s.len(),
{
    let flat = seq![34u8] + spec_escape(v) + seq![34u8];
    assert(spec_render_str(v) == flat);
    let len = spec_render_str(v).len() as int;
    let sub = s.subrange(i, i + len);
    assert(sub[0] == s[i]);
    assert(sub[spec_escape(v).len() as int + 1] == s[i + 1 + spec_escape(v).len()]);
    assert(flat[0] == 34);
    assert(flat[spec_escape(v).len() as int + 1] == 34);
}

/// The escape group of the next content byte stands in the input
/// right where the escape of the consumed prefix ends.
proof fn lemma_group_bytes(s: Seq<u8>, i: int, v: Seq<u8>, k: int)
    requires
        0 <= i,
        spec_rendering_at(s, i, v),
        0 <= k < v.len(),
    ensures
        spec_escape(v.take(k)).len() + spec_escape_byte(v[k]).len() <= spec_escape(v).len(),
        forall|u: int|
            0 <= u < spec_escape_byte(v[k]).len() ==> s[i + 1 + spec_escape(v.take(k)).len() + u]
                == #[trigger] spec_escape_byte(v[k])[u],
{
    lemma_escape_take_len(v, k);
    lemma_escape_take_step(v, k);
    lemma_escape_concat(v.take(k + 1), v.skip(k + 1));
    assert(v.take(k + 1) + v.skip(k + 1) =~= v);
    let flat = seq![34u8] + spec_escape(v) + seq![34u8];
    assert(spec_render_str(v) == flat);
    let len = spec_render_str(v).len() as int;
    let sub = s.subrange(i, i + len);
    let off = spec_escape(v.take(k)).len() as int;
    assert forall|u: int|
        0 <= u < spec_escape_byte(v[k]).len() implies s[i + 1 + off + u] == spec_escape_byte(
        v[k],
    )[u] by {
        assert(spec_escape(v)[off + u] == (spec_escape(v.take(k)) + spec_escape_byte(v[k])
            + spec_escape(v.skip(k + 1)))[off + u]);
        assert(spec_escape(v)[off + u] == spec_escape_byte(v[k])[u]);
        assert(sub[1 + off + u] == s[i + 1 + off + u]);
        assert(flat[1 + off + u] == spec_escape(v)[off + u]);
    }
}

/// What one iteration of the unescape loop does, as a function of
/// the input bytes alone: which byte it appends and how far it moves.
pub open spec fn spec_unescape_step(
    s: Seq<u8>,
    j0: int,
    out0: Seq<u8>,
    out1: Seq<u8>,
    j1: int,
) -> bool {
    if s[j0] == 92 {
        let e = s[j0 + 1];
        if e == 34 || e == 92 || e == 47 {
            out1 == out0.push(e) && j1 == j0 + 2
        } else if e == 98 {
            out1 == out0.push(8u8) && j1 == j0 + 2
        } else if e == 102 {
            out1 == out0.push(12u8) && j1 == j0 + 2
        } else if e == 110 {
            out1 == out0.push(10u8) && j1 == j0 + 2
        } else if e == 114 {
            out1 == out0.push(13u8) && j1 == j0 + 2
        } else if e == 116 {
            out1 == out0.push(9u8) && j1 == j0 + 2
        } else if e == 117 {
            out1 == out0.push((spec_hex(s[j0 + 4]) * 16 + spec_hex(s[j0 + 5])) as u8) && j1 == j0
                + 6
        } else {
            false
        }
    } else {
        out1 == out0.push(s[j0]) && j1 == j0 + 1
    }
}

/// One unescape step on a rendered string consumes exactly the escape
/// group of the next content byte and recovers that byte.
#[verifier::rlimit(100)]
#[verifier::spinoff_prover]
proof fn lemma_unescape_advance(
    s: Seq<u8>,
    i: int,
    v: Seq<u8>,
    out0: Seq<u8>,
    j0: int,
    out1: Seq<u8>,
    j1: int,
)
    requires
        0 <= i,
        spec_rendering_at(s, i, v),
        out0.len() <= v.len(),
        out0 == v.take(out0.len() as int),
        j0 == i + 1 + spec_escape(v.take(out0.len() as int)).len(),
        s[j0] != 34,
        spec_unescape_step(s, j0, out0, out1, j1),
    ensures
        out1.len() <= v.len(),
        out1 == v.take(out1.len() as int),
        j1 == i + 1 + spec_escape(v.take(out1.len() as int)).len(),
{
    lemma_shell_bytes(s, i, v);
    let k = out0.len() as int;
    if k == v.len() {
        assert(v.take(k) =~= v);
        assert(s[j0] == 34);
    } else {
        lemma_group_bytes(s, i, v, k);
        lemma_escape_take_step(v, k);
        assert(s[j0] == spec_escape_byte(v[k])[0]);
        if v[k] == 34 || v[k] == 92 {
            assert(s[j0 + 1] == spec_escape_byte(v[k])[1]);
            assert(out1 =~= v.take(k + 1));
        } else if v[k] < 32 {
            assert(s[j0 + 1] == spec_escape_byte(v[k])[1]);
            assert(s[j0 + 4] == spec_escape_byte(v[k])[4]);
            assert(s[j0 + 5] == spec_escape_byte(v[k])[5]);
            assert(s[j0 + 4] == spec_hex_digit(v[k] / 16));
            assert(s[j0 + 5] == spec_hex_digit(v[k] % 16));
            assert(spec_hex(s[j0 + 4]) == v[k] / 16);
            assert(spec_hex(s[j0 + 5]) == v[k] % 16);
            assert(spec_hex(s[j0 + 4]) * 16 + spec_hex(s[j0 + 5]) == v[k]);
            assert(out1 =~= v.take(k + 1));
        } else {
            assert(out1 =~= v.take(k + 1));
        }
    }
}

/// A closing quote in the input marks exactly the end of the
/// rendered content.
#[verifier::rlimit(100)]
#[verifier::spinoff_prover]
proof fn lemma_quote_ends(s: Seq<u8>, i: int, v: Seq<u8>, out0: Seq<u8>, j0: int)
    requires
        0 <= i,
        spec_rendering_at(s, i, v),
        out0.len() <= v.len(),
        out0 == v.take(out0.len() as int),
        j0 == i + 1 + spec_escape(v.take(out0.len() as int)).len(),
        s[j0] == 34,
    ensures
        out0 == v,
        j0 + 1 == i + spec_render_str(v).len(),
{
    lemma_shell_bytes(s, i, v);
    let k = out0.len() as int;
    if k < v.len() {
        lemma_group_bytes(s, i, v, k);
        assert(s[j0] == spec_escape_byte(v[k])[0]);
    } else {
        assert(v.take(k) =~= v);
    }
}

/// A backslash in the input marks an escape group; what its following
/// bytes must be, and that the group ends before the closing quote.
#[verifier::rlimit(100)]
#[verifier::spinoff_prover]
proof fn lemma_backslash_facts(s: Seq<u8>, i: int, v: Seq<u8>, out0: Seq<u8>, j0: int)
    requires
        0 <= i,
        spec_rendering_at(s, i, v),
        out0.len() <= v.len(),
        out0 == v.take(out0.len() as int),
        j0 == i + 1 + spec_escape(v.take(out0.len() as int)).len(),
        s[j0] == 92,
    ensures
        i + 1 + spec_escape(v).len() < s.len(),
        s[j0 + 1] == 34 || s[j0 + 1] == 92 || s[j0 + 1] == 117,
        s[j0 + 1] == 34 || s[j0 + 1] == 92 ==> j0 + 2 <= i + 1 + spec_escape(v).len(),
        s[j0 + 1] == 117 ==> {
            &&& j0 + 6 <= i + 1 + spec_escape(v).len()
            &&& s[j0 + 2] == 48
            &&& s[j0 + 3] == 48
            &&& (48 <= s[j0 + 4] <= 57 || 97 <= s[j0 + 4] <= 102)
            &&& (48 <= s[j0 + 5] <= 57 || 97 <= s[j0 + 5] <= 102)
        },
{
    lemma_shell_bytes(s, i, v);
    let k = out0.len() as int;
    if k == v.len() {
        assert(v.take(k) =~= v);
        assert(s[j0] == 34);
    } else {
        lemma_group_bytes(s, i, v, k);
        assert(s[j0] == spec_escape_byte(v[k])[0]);
        assert(s[j0 + 1] == spec_escape_byte(v[k])[1]);
        if v[k] < 32 && v[k] != 34 && v[k] != 92 {
            assert(s[j0 + 2] == spec_escape_byte(v[k])[2]);
            assert(s[j0 + 3] == spec_escape_byte(v[k])[3]);
            assert(s[j0 + 4] == spec_escape_byte(v[k])[4]);
            assert(s[j0 + 5] == spec_escape_byte(v[k])[5]);
            assert(s[j0 + 4] == spec_hex_digit(v[k] / 16));
            assert(s[j0 + 5] == spec_hex_digit(v[k] % 16));
        }
    }
}

/// Parses a quoted string starting exactly at `i`, undoing the
/// escapes the renderer writes (and the other simple JSON escapes).
///
/// The second `ensures` clause is the round trip of the string layer:
/// wherever the canonical rendering of any byte string stands in the
/// input, the parse succeeds, returns exactly that byte string, and
/// consumes exactly the rendering.
#[verifier::rlimit(100)]
fn parse_string_at(s: &[u8], i: usize) -> (r: Option<(Vec<u8>, usize)>)
    requires
        i <= s@.len(),
    ensures
        r matches Some((v, j)) ==> i < j <= s@.len(),
        forall|v: Seq<u8>|
            spec_rendering_at(s@, i as int, v) ==> (r matches Some((out, j)) && out@ == v && j == i
                + spec_render_str(v).len()),
{
    if i >= s.len() || s[i] != 34 {
        proof {
            assert forall|v: Seq<u8>| spec_rendering_at(s@, i as int, v) implies false by {
                lemma_shell_bytes(s@, i as int, v);
            }
        }
        return None;
    }
    let mut j = i + 1;
    let mut out: Vec<u8> = Vec::new();
    proof {
        assert forall|v: Seq<u8>|
            spec_rendering_at(s@, i as int, v) implies (out@.len() <= v.len() && out@ == v.take(
            out@.len() as int,
        ) && j == i + 1 + spec_escape(v.take(out@.len() as int)).len()) by {
            assert(out@ =~= v.take(0));
            assert(v.take(0) =~= Seq::<u8>::empty());
        }
    }
    while j < s.len()
        invariant
            i < j <= s@.len(),
            forall|v: Seq<u8>|
                spec_rendering_at(s@, i as int, v) ==> (out@.len() <= v.len() && out@ == v.take(
                    out@.len() as int,
                ) && j == i + 1 + spec_escape(v.take(out@.len() as int)).len()),
        decreases s@.len() - j,
    {
        let ghost out0 = out@;
        let ghost j0 = j as int;
        let b = s[j];
        if b == 34 {
            proof {
                assert forall|v: Seq<u8>| spec_rendering_at(s@, i as int, v) implies (out@ == v && j
                    + 1 == i + spec_render_str(v).len()) by {
                    lemma_quote_ends(s@, i as int, v, out0, j0);
                }
            }
            return Some((out, j + 1));
        } else if b == 92 {
            if j + 1 >= s.len() {
                proof {
                    assert forall|v: Seq<u8>| spec_rendering_at(s@, i as int, v) implies false by {
                        lemma_backslash_facts(s@, i as int, v, out0, j0);
                    }
                }
                return None;
            }
            let e = s[j + 1];
            if e == 34 || e == 92 || e == 47 {
                out.push(e);
                j += 2;
            } else if e == 98 {
                out.push(8);
                j += 2;
            } else if e == 102 {
                out.push(12);
                j += 2;
            } else if e == 110 {
                out.push(10);
                j += 2;
            } else if e == 114 {
                out.push(13);
                j += 2;
            } else if e == 116 {
                out.push(9);
                j += 2;
            } else if e == 117 {
                if s.len() - j < 6 {
                    proof {
                        assert forall|v: Seq<u8>|
                            spec_rendering_at(s@, i as int, v) implies false by {
                            lemma_backslash_facts(s@, i as int, v, out0, j0);
                        }
                    }
                    return None;
                }
                if s[j + 2] != 48 || s[j + 3] != 48 {
                    proof {
                        assert forall|v: Seq<u8>|
                            spec_rendering_at(s@, i as int, v) implies false by {
                            lemma_backslash_facts(s@, i as int, v, out0, j0);
                        }
                    }
                    return None;
                }
                let hi = match hex_val(s[j + 4]) {
                    Some(v) => v,
                    None => {
                        proof {
                            assert forall|v: Seq<u8>|
                                spec_rendering_at(s@, i as int, v) implies false by {
                                lemma_backslash_facts(s@, i as int, v, out0, j0);
                            }
                        }
                        return None;
                    },
                };
                let lo = match hex_val(s[j + 5]) {
                    Some(v) => v,
                    None => {
                        proof {
                            assert forall|v: Seq<u8>|
                                spec_rendering_at(s@, i as int, v) implies false by {
                                lemma_backslash_facts(s@, i as int, v, out0, j0);
                            }
                        }
                        return None;
                    },
                };
                out.push(hi * 16 + lo);
                j += 6;
            } else {
                proof {
                    assert forall|v: Seq<u8>| spec_rendering_at(s@, i as int, v) implies false by {
                        lemma_backslash_facts(s@, i as int, v, out0, j0);
                    }
                }
                return None;
            }
        } else {
            out.push(b);
            j += 1;
        }
        proof {
            assert(spec_unescape_step(s@, j0, out0, out@, j as int));
            assert forall|v: Seq<u8>|
                spec_rendering_at(s@, i as int, v) implies (out@.len() <= v.len() && out@ == v.take(
                out@.len() as int,
            ) && j == i + 1 + spec_escape(v.take(out@.len() as int)).len()) by {
                lemma_unescape_advance(s@, i as int, v, out0, j0, out@, j as int);
            }
        }
    }
    proof {
        assert forall|v: Seq<u8>| spec_rendering_at(s@, i as int, v) implies false by {
            lemma_shell_bytes(s@, i as int, v);
            lemma_escape_take_len(v, out@.len() as int);
        }
    }
    None
}

/// Parses the literal `null` starting exactly at `i`.
fn parse_null_at(s: &[u8], i: usize) -> (r: Option<usize>)
    requires
        i <= s@.len(),
    ensures
        r matches Some(j) ==> i < j <= s@.len(),
{
    if i < s.len() && s.len() - i >= 4 && s[i] == 110 && s[i + 1] == 117 && s[i + 2] == 108 && s[
        i + 3] == 108 {
        Some(i + 4)
    } else {
        None
    }
}

/// Skips one value of any shape: a string, an object, an array, or a
/// bare scalar token. Used for unknown members, which are tolerated
/// rather than rejected.
fn skip_value(s: &[u8], i: usize) -> (r: Option<usize>)
    requires
        i <= s@.len(),
    ensures
        r matches Some(j) ==> i < j <= s@.len(),
{
    if i >= s.len() {
        return None;
    }
    let b = s[i];
    if b == 34 {
        match parse_string_at(s, i) {
            Some((_, j)) => Some(j),
            None => None,
        }
    } else if b == 123 || b == 91 {
        let mut depth: usize = 1;
        let mut j = i + 1;
        while j < s.len() && depth > 0
            invariant
                i < j <= s@.len(),
            decreases s@.len() - j,
        {
            let c = s[j];
            if c == 34 {
                match parse_string_at(s, j) {
                    Some((_, j2)) => {
                        j = j2;
                    },
                    None => {
                        return None;
                    },
                }
            } else {
                if c == 123 || c == 91 {
                    if depth == usize::MAX {
                        return None;
                    }
                    depth += 1;
                } else if c == 125 || c == 93 {
                    depth -= 1;
                }
                j += 1;
            }
        }
        if depth == 0 {
            Some(j)
        } else {
            None
        }
    } else {
        let mut j = i;
        while j < s.len() && s[j] != 44 && s[j] != 125 && s[j] != 93 && s[j] != 32 && s[j] != 9
            && s[j] != 10 && s[j] != 13
            invariant
                i <= j <= s@.len(),
            decreases s@.len() - j,
        {
            j += 1;
        }
        if j > i {
            Some(j)
        } else {
            None
        }
    }
}

/// Expects `:` (surrounded by any whitespace) and advances past it.
fn expect_colon(s: &[u8], i: usize) -> (r: Option<usize>)
    requires
        i <= s@.len(),
    ensures
        r matches Some(j) ==> i <= j <= s@.len(),
{
    let j = skip_ws(s, i);
    if j < s.len() && s[j] == 58 {
        Some(skip_ws(s, j + 1))
    } else {
        None
    }
}

/// Parses one credential record object starting at `i` (after any
/// leading whitespace). Unknown members are skipped; a known member
/// appearing twice, a missing required field, or a session token and
/// expiration that do not come together make the document corrupt.
fn parse_record_at(s: &[u8], i: usize) -> (r: Option<(CredentialRecord, usize)>)
    requires
        i <= s@.len(),
    ensures
        r matches Some((rec, j)) ==> rec.well_formed() && i < j <= s@.len(),
{
    let mut j = skip_ws(s, i);
    if j >= s.len() || s[j] != 123 {
        return None;
    }
    j += 1;
    let mut access_key_id: Option<Vec<u8>> = None;
    let mut secret_access_key: Option<Vec<u8>> = None;
    let mut session_token: Option<Vec<u8>> = None;
    let mut token_seen = false;
    let mut expiration: Option<crate::timestamp::Timestamp> = None;
    let mut expiration_seen = false;
    loop
        invariant
            i < j <= s@.len(),
            expiration matches Some(e) ==> e.valid(),
        ensures
            i < j <= s@.len(),
            expiration matches Some(e) ==> e.valid(),
        decreases s@.len() - j,
    {
        j = skip_ws(s, j);
        if j >= s.len() {
            return None;
        }
        if s[j] == 125 {
            j += 1;
            break ;
        }
        let (key, j2) = match parse_string_at(s, j) {
            Some(kj) => kj,
            None => {
                return None;
            },
        };
        j = match expect_colon(s, j2) {
            Some(j3) => j3,
            None => {
                return None;
            },
        };
        if j >= s.len() {
            return None;
        }
        if bytes_eq(key.as_slice(), "access-key-id".as_bytes()) {
            if access_key_id.is_some() {
                return None;
            }
            match parse_string_at(s, j) {
                Some((v, j4)) => {
                    access_key_id = Some(v);
                    j = j4;
                },
                None => {
                    return None;
                },
            }
        } else if bytes_eq(key.as_slice(), "secret-access-key".as_bytes()) {
            if secret_access_key.is_some() {
                return None;
            }
            match parse_string_at(s, j) {
                Some((v, j4)) => {
                    secret_access_key = Some(v);
                    j = j4;
                },
                None => {
                    return None;
                },
            }
        } else if bytes_eq(key.as_slice(), "session-token".as_bytes()) {
            if token_seen {
                return None;
            }
            token_seen = true;
            if s[j] == 110 {
                match parse_null_at(s, j) {
                    Some(j4) => {
                        j = j4;
                    },
                    None => {
                        return None;
                    },
                }
            } else {
                match parse_string_at(s, j) {
                    Some((v, j4)) => {
                        session_token = Some(v);
                        j = j4;
                    },
                    None => {
                        return None;
                    },
                }
            }
        } else if bytes_eq(key.as_slice(), "expiration".as_bytes()) {
            if expiration_seen {
                return None;
            }
            expiration_seen = true;
            if s[j] == 110 {
                match parse_null_at(s, j) {
                    Some(j4) => {
                        j = j4;
                    },
                    None => {
                        return None;
                    },
                }
            } else {
                match parse_string_at(s, j) {
                    Some((v, j4)) => {
                        match parse_rfc3339(v.as_slice()) {
                            Some(t) => {
                                expiration = Some(t);
                                j = j4;
                            },
                            None => {
                                return None;
                            },
                        }
                    },
                    None => {
                        return None;
                    },
                }
            }
        } else {
            match skip_value(s, j) {
                Some(j4) => {
                    j = j4;
                },
                None => {
                    return None;
                },
            }
        }
        j = skip_ws(s, j);
        if j < s.len() && s[j] == 44 {
            j += 1;
        } else if j < s.len() && s[j] == 125 {
            // the loop head closes the object
        } else {
            return None;
        }
    }
    let key = match access_key_id {
        Some(k) => k,
        None => {
            return None;
        },
    };
    let secret = match secret_access_key {
        Some(v) => v,
        None => {
            return None;
        },
    };
    if session_token.is_some() != expiration.is_some() {
        return None;
    }
    Some(
        (
            CredentialRecord {
                access_key_id: key,
                secret_access_key: secret,
                session_token,
                expiration,
            },
            j,
        ),
    )
}

/// Parses one registered-device object starting at `i` (after any
/// leading whitespace). The tag must be a known device kind: an
/// unrecognized kind fails loudly instead of being dropped.
fn parse_device_at(s: &[u8], i: usize) -> (r: Option<(MfaDeviceEntry, usize)>)
    requires
        i <= s@.len(),
    ensures
        r matches Some((d, j)) ==> i < j <= s@.len(),
{
    let mut j = skip_ws(s, i);
    if j >= s.len() || s[j] != 123 {
        return None;
    }
    j = skip_ws(s, j + 1);
    let (tag, j2) = match parse_string_at(s, j) {
        Some(kj) => kj,
        None => {
            return None;
        },
    };
    if !bytes_eq(tag.as_slice(), "ykoath".as_bytes()) {
        return None;
    }
    j = match expect_colon(s, j2) {
        Some(j3) => j3,
        None => {
            return None;
        },
    };
    if j >= s.len() || s[j] != 123 {
        return None;
    }
    j += 1;
    let mut name: Option<Vec<u8>> = None;
    loop
        invariant
            i < j <= s@.len(),
        ensures
            i < j <= s@.len(),
        decreases s@.len() - j,
    {
        j = skip_ws(s, j);
        if j >= s.len() {
            return None;
        }
        if s[j] == 125 {
            j += 1;
            break ;
        }
        let (key, j3) = match parse_string_at(s, j) {
            Some(kj) => kj,
            None => {
                return None;
            },
        };
        j = match expect_colon(s, j3) {
            Some(j4) => j4,
            None => {
                return None;
            },
        };
        if bytes_eq(key.as_slice(), "name".as_bytes()) {
            if name.is_some() {
                return None;
            }
            match parse_string_at(s, j) {
                Some((v, j5)) => {
                    name = Some(v);
                    j = j5;
                },
                None => {
                    return None;
                },
            }
        } else {
            match skip_value(s, j) {
                Some(j5) => {
                    j = j5;
                },
                None => {
                    return None;
                },
            }
        }
        j = skip_ws(s, j);
        if j < s.len() && s[j] == 44 {
            j += 1;
        } else if j < s.len() && s[j] == 125 {
            // the loop head closes the object
        } else {
            return None;
        }
    }
    let account_name = match name {
        Some(n) => n,
        None => {
            return None;
        },
    };
    j = skip_ws(s, j);
    if j >= s.len() || s[j] != 125 {
        return None;
    }
    Some((MfaDeviceEntry::HardwareOathToken { account_name }, j + 1))
}

/// Parses the credentials section: an object mapping identifiers to
/// records. A repeated identifier keeps the last record, as a plain
/// JSON map would.
fn parse_cred_map(s: &[u8], i: usize) -> (r: Option<(Vec<(Vec<u8>, CredentialRecord)>, usize)>)
    requires
        i <= s@.len(),
    ensures
        r matches Some((entries, j)) ==> unique_keys(entries@) && i < j <= s@.len() && (forall|
            k: int,
        |
            0 <= k < entries@.len() ==> (#[trigger] entries@[k]).1.well_formed()),
{
    let mut j = skip_ws(s, i);
    if j >= s.len() || s[j] != 123 {
        return None;
    }
    j += 1;
    let mut acc = Store::new();
    loop
        invariant
            i < j <= s@.len(),
            acc.well_formed(),
        ensures
            i < j <= s@.len(),
            acc.well_formed(),
        decreases s@.len() - j,
    {
        j = skip_ws(s, j);
        if j >= s.len() {
            return None;
        }
        if s[j] == 125 {
            j += 1;
            break ;
        }
        let (key, j2) = match parse_string_at(s, j) {
            Some(kj) => kj,
            None => {
                return None;
            },
        };
        j = match expect_colon(s, j2) {
            Some(j3) => j3,
            None => {
                return None;
            },
        };
        let (rec, j4) = match parse_record_at(s, j) {
            Some(rj) => rj,
            None => {
                return None;
            },
        };
        j = j4;
        acc.insert_credentials(key, rec);
        j = skip_ws(s, j);
        if j < s.len() && s[j] == 44 {
            j += 1;
        } else if j < s.len() && s[j] == 125 {
            // the loop head closes the object
        } else {
            return None;
        }
    }
    let Store { credentials, mfa_devices: _ } = acc;
    Some((credentials, j))
}

/// Parses the devices section: an object mapping identifiers to
/// device entries.
fn parse_dev_map(s: &[u8], i: usize) -> (r: Option<(Vec<(Vec<u8>, MfaDeviceEntry)>, usize)>)
    requires
        i <= s@.len(),
    ensures
        r matches Some((entries, j)) ==> unique_keys(entries@) && i < j <= s@.len(),
{
    let mut j = skip_ws(s, i);
    if j >= s.len() || s[j] != 123 {
        return None;
    }
    j += 1;
    let mut entries: Vec<(Vec<u8>, MfaDeviceEntry)> = Vec::new();
    loop
        invariant
            i < j <= s@.len(),
            unique_keys(entries@),
        ensures
            i < j <= s@.len(),
            unique_keys(entries@),
        decreases s@.len() - j,
    {
        j = skip_ws(s, j);
        if j >= s.len() {
            return None;
        }
        if s[j] == 125 {
            j += 1;
            break ;
        }
        let (key, j2) = match parse_string_at(s, j) {
            Some(kj) => kj,
            None => {
                return None;
            },
        };
        j = match expect_colon(s, j2) {
            Some(j3) => j3,
            None => {
                return None;
            },
        };
        let (dev, j4) = match parse_device_at(s, j) {
            Some(dj) => dj,
            None => {
                return None;
            },
        };
        j = j4;
        insert(&mut entries, key, dev);
        j = skip_ws(s, j);
        if j < s.len() && s[j] == 44 {
            j += 1;
        } else if j < s.len() && s[j] == 125 {
            // the loop head closes the object
        } else {
            return None;
        }
    }
    Some((entries, j))
}

/// Parses the persisted document back into a store.
///
/// A missing `credentials` or `mfa-devices` section defaults to an
/// empty mapping; unknown members anywhere are skipped. Anything the
/// grammar cannot account for makes the document corrupt — the
/// parser never guesses.
///
/// The third clause is the document's round trip: loading exactly
/// what `render_store` wrote reproduces the store, mapping for
/// mapping and field for field. The fourth generalizes it to the
/// whole canonical family and carries the defaulting the format
/// promises: a document with a section missing — or with the
/// sections reordered — loads with the missing mapping empty, never
/// with an error. The fifth is the empty-document instance.
pub fn parse_store(s: &[u8]) -> (r: Result<Store, StoreError>)
    ensures
        r matches Ok(st) ==> st.well_formed(),
        r matches Err(e) ==> e == StoreError::Corrupt,
        forall|st: Store|
            #![trigger spec_render_store(st)]
            st.well_formed() && s@ == spec_render_store(st) ==> (r matches Ok(st2) && same_store(
                st2,
                st,
            )),
        forall|
            cred: Option<Seq<(Vec<u8>, CredentialRecord)>>,
            dev: Option<Seq<(Vec<u8>, MfaDeviceEntry)>>,
            dev_first: bool,
        |
            #![trigger spec_render_doc(cred, dev, dev_first)]
            spec_doc_wf(cred, dev) && s@ == spec_render_doc(cred, dev, dev_first) ==> (
            r matches Ok(st2) && same_cred_entries(st2.credentials@, spec_creds_or_empty(cred))
                && same_dev_entries(st2.mfa_devices@, spec_devs_or_empty(dev))),
        s@ == lit("{}") ==> (r matches Ok(st2) && st2.credentials@.len() == 0
            && st2.mfa_devices@.len() == 0),
{
    proof {
        lemma_literal_bytes();
    }
    if s.len() == 2 && s[0] == 123 && s[1] == 125 {
        proof {
            assert(s@ =~= lit("{}"));
            assert forall|st: Store|
                #![trigger spec_render_store(st)]
                st.well_formed() && s@ == spec_render_store(st) implies false by {
                lemma_render_store_is_doc(st);
                lemma_doc_layout(
                    s@,
                    Some(st.credentials@),
                    Some(st.mfa_devices@),
                    false,
                );
            }
            assert forall|
                cred: Option<Seq<(Vec<u8>, CredentialRecord)>>,
                dev: Option<Seq<(Vec<u8>, MfaDeviceEntry)>>,
                dev_first: bool,
            |
                #![trigger spec_render_doc(cred, dev, dev_first)]
                spec_doc_wf(cred, dev) && s@ == spec_render_doc(cred, dev, dev_first) implies (
            cred is None && dev is None) by {
                lemma_doc_layout(s@, cred, dev, dev_first);
            }
        }
        return Ok(Store::new());
    }
    proof {
        assert(s@ != lit("{}")) by {
            if s@ == lit("{}") {
                assert(s@.len() == 2 && s@[0] == 123 && s@[1] == 125);
            }
        }
    }
    match parse_store_strict(s) {
        Some(st) => {
            proof {
                assert forall|st0: Store|
                    #![trigger spec_render_store(st0)]
                    st0.well_formed() && s@ == spec_render_store(st0) implies same_store(
                    st,
                    st0,
                ) by {
                    lemma_render_store_is_doc(st0);
                }
                assert forall|
                    cred: Option<Seq<(Vec<u8>, CredentialRecord)>>,
                    dev: Option<Seq<(Vec<u8>, MfaDeviceEntry)>>,
                    dev_first: bool,
                |
                    #![trigger spec_render_doc(cred, dev, dev_first)]
                    spec_doc_wf(cred, dev) && s@ == spec_render_doc(cred, dev, dev_first) implies (
                same_cred_entries(st.credentials@, spec_creds_or_empty(cred)) && same_dev_entries(
                    st.mfa_devices@,
                    spec_devs_or_empty(dev),
                )) by {
                    if cred is None && dev is None {
                        assert(spec_render_doc(cred, dev, dev_first) =~= lit("{}"));
                    }
                }
            }
            return Ok(st);
        },
        None => {},
    }
    proof {
        assert forall|st: Store|
            #![trigger spec_render_store(st)]
            st.well_formed() && s@ == spec_render_store(st) implies false by {
            lemma_render_store_is_doc(st);
        }
        assert forall|
            cred: Option<Seq<(Vec<u8>, CredentialRecord)>>,
            dev: Option<Seq<(Vec<u8>, MfaDeviceEntry)>>,
            dev_first: bool,
        |
            #![trigger spec_render_doc(cred, dev, dev_first)]
            spec_doc_wf(cred, dev) && s@ == spec_render_doc(cred, dev, dev_first) implies false by {
            if cred is None && dev is None {
                assert(spec_render_doc(cred, dev, dev_first) =~= lit("{}"));
            }
        }
    }
    let mut j = skip_ws(s, 0);
    if j >= s.len() || s[j] != 123 {
        return Err(StoreError::Corrupt);
    }
    j += 1;
    let mut credentials: Vec<(Vec<u8>, CredentialRecord)> = Vec::new();
    let mut mfa_devices: Vec<(Vec<u8>, MfaDeviceEntry)> = Vec::new();
    let mut credentials_seen = false;
    let mut devices_seen = false;
    loop
        invariant
            s@ != lit("{}"),
            forall|st: Store|
                #![trigger spec_render_store(st)]
                st.well_formed() && s@ == spec_render_store(st) ==> false,
            forall|
                cred: Option<Seq<(Vec<u8>, CredentialRecord)>>,
                dev: Option<Seq<(Vec<u8>, MfaDeviceEntry)>>,
                dev_first: bool,
            |
                #![trigger spec_render_doc(cred, dev, dev_first)]
                spec_doc_wf(cred, dev) && s@ == spec_render_doc(cred, dev, dev_first) ==> false,
            j <= s@.len(),
            unique_keys(credentials@),
            unique_keys(mfa_devices@),
            forall|k: int|
                0 <= k < credentials@.len() ==> (#[trigger] credentials@[k]).1.well_formed(),
        ensures
            j <= s@.len(),
            unique_keys(credentials@),
            unique_keys(mfa_devices@),
            forall|k: int|
                0 <= k < credentials@.len() ==> (#[trigger] credentials@[k]).1.well_formed(),
        decreases s@.len() - j,
    {
        j = skip_ws(s, j);
        if j >= s.len() {
            return Err(StoreError::Corrupt);
        }
        if s[j] == 125 {
            j += 1;
            break ;
        }
        let (key, j2) = match parse_string_at(s, j) {
            Some(kj) => kj,
            None => {
                return Err(StoreError::Corrupt);
            },
        };
        j = match expect_colon(s, j2) {
            Some(j3) => j3,
            None => {
                return Err(StoreError::Corrupt);
            },
        };
        if bytes_eq(key.as_slice(), "credentials".as_bytes()) {
            if credentials_seen {
                return Err(StoreError::Corrupt);
            }
            credentials_seen = true;
            match parse_cred_map(s, j) {
                Some((entries, j4)) => {
                    credentials = entries;
                    j = j4;
                },
                None => {
                    return Err(StoreError::Corrupt);
                },
            }
        } else if bytes_eq(key.as_slice(), "mfa-devices".as_bytes()) {
            if devices_seen {
                return Err(StoreError::Corrupt);
            }
            devices_seen = true;
            match parse_dev_map(s, j) {
                Some((entries, j4)) => {
                    mfa_devices = entries;
                    j = j4;
                },
                None => {
                    return Err(StoreError::Corrupt);
                },
            }
        } else {
            match skip_value(s, j) {
                Some(j4) => {
                    j = j4;
                },
                None => {
                    return Err(StoreError::Corrupt);
                },
            }
        }
        j = skip_ws(s, j);
        if j < s.len() && s[j] == 44 {
            j += 1;
        } else if j < s.len() && s[j] == 125 {
            // the loop head closes the object
        } else {
            return Err(StoreError::Corrupt);
        }
    }
    let j_end = skip_ws(s, j);
    if j_end != s.len() {
        return Err(StoreError::Corrupt);
    }
    Ok(Store { credentials, mfa_devices })
}

} // verus!
