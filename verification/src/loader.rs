use vstd::prelude::*;

use crate::errors::AirportError;

verus! {

/// Rows of the reference table are separated by this byte.
pub const ROW_DELIM: u8 = 10;

/// Fields within a row are separated by this byte.
pub const FIELD_DELIM: u8 = 44;

/// One data row of the reference file, decoded into its five fields. The two
/// coordinate fields are kept as the text the file carried: turning them into
/// numeric bit patterns is the caller's step, outside this library.
#[derive(Debug)]
pub struct RawAirport {
    pub name: Vec<u8>,
    pub abr: Vec<u8>,
    pub lat_text: Vec<u8>,
    pub long_text: Vec<u8>,
    pub id: usize,
}

/// Splitting a byte sequence at every occurrence of a delimiter, defined byte
/// by byte from the front: the empty input is one empty piece, a delimiter
/// closes the current piece, and any other byte extends it. This is the whole
/// grammar of the reference format; there is no quoting or escaping.
pub open spec fn split_bytes(s: Seq<u8>, d: u8) -> Seq<Seq<u8>>
    decreases s.len(),
{
    if s.len() == 0 {
        seq![Seq::<u8>::empty()]
    } else {
        let rest = split_bytes(s.drop_last(), d);
        if s.last() == d {
            rest.push(Seq::<u8>::empty())
        } else {
            rest.update(rest.len() - 1, rest.last().push(s.last()))
        }
    }
}

/// A split is never empty: there is always at least the one (possibly empty)
/// piece before the first delimiter.
pub proof fn lemma_split_bytes_len(s: Seq<u8>, d: u8)
    ensures
        split_bytes(s, d).len() >= 1,
    decreases s.len(),
{
    if s.len() > 0 {
        lemma_split_bytes_len(s.drop_last(), d);
    }
}

/// The views of a sequence of byte vectors.
pub open spec fn seq_views(v: Seq<Vec<u8>>) -> Seq<Seq<u8>> {
    v.map_values(|p: Vec<u8>| p@)
}

proof fn lemma_views_push(v: Seq<Vec<u8>>, x: Vec<u8>)
    ensures
        seq_views(v.push(x)) == seq_views(v).push(x@),
{
    assert(seq_views(v.push(x)) =~~= seq_views(v).push(x@));
}

proof fn lemma_views_drop_last(v: Seq<Vec<u8>>)
    requires
        v.len() >= 1,
    ensures
        seq_views(v.drop_last()) == seq_views(v).drop_last(),
{
    assert(seq_views(v.drop_last()) =~~= seq_views(v).drop_last());
}

/// Split a byte vector at every occurrence of `d`.
pub fn split_on(s: &Vec<u8>, d: u8) -> (parts: Vec<Vec<u8>>)
    ensures
        seq_views(parts@) == split_bytes(s@, d),
{
    let mut parts: Vec<Vec<u8>> = Vec::new();
    let mut cur: Vec<u8> = Vec::new();
    let mut i: usize = 0;
    proof {
        assert(s@.take(0) =~= Seq::<u8>::empty());
        assert(seq_views(parts@).push(cur@) =~~= split_bytes(s@.take(0), d));
    }
    while i < s.len()
        invariant
            0 <= i <= s@.len(),
            seq_views(parts@).push(cur@) == split_bytes(s@.take(i as int), d),
        decreases s@.len() - i,
    {
        proof {
            let now = s@.take(i as int + 1);
            assert(now.drop_last() =~= s@.take(i as int));
            assert(now.last() == s@[i as int]);
        }
        let c = s[i];
        if c == d {
            let ghost old_parts = parts@;
            let ghost old_cur = cur@;
            parts.push(cur);
            cur = Vec::new();
            proof {
                lemma_views_push(old_parts, parts@[old_parts.len() as int]);
                assert(seq_views(parts@).push(cur@) =~~= split_bytes(s@.take(i as int), d).push(
                    Seq::<u8>::empty(),
                ));
            }
        } else {
            let ghost old_cur = cur@;
            cur.push(c);
            proof {
                let prev = seq_views(parts@).push(old_cur);
                assert(seq_views(parts@).push(cur@) =~~= prev.update(
                    prev.len() - 1,
                    prev.last().push(c),
                ));
            }
        }
        i = i + 1;
    }
    proof {
        assert(s@.take(s@.len() as int) =~= s@);
    }
    let ghost old_parts = parts@;
    parts.push(cur);
    proof {
        lemma_views_push(old_parts, parts@[old_parts.len() as int]);
    }
    parts
}

/// The bytes of an unsigned decimal numeral: at least one byte, all of them
/// ASCII digits.
pub open spec fn is_dec_digits(s: Seq<u8>) -> bool {
    s.len() >= 1 && forall|i: int| 0 <= i < s.len() ==> 48 <= #[trigger] s[i] <= 57
}

/// The number an ASCII digit string denotes, most significant digit first.
pub open spec fn dec_value(s: Seq<u8>) -> nat
    decreases s.len(),
{
    if s.len() == 0 {
        0
    } else {
        (dec_value(s.drop_last()) * 10 + (s.last() - 48)) as nat
    }
}

/// A longer digit string never denotes a smaller number than its prefix.
proof fn lemma_dec_prefix_le(s: Seq<u8>, k: int)
    requires
        0 <= k <= s.len(),
        forall|i: int| 0 <= i < s.len() ==> 48 <= #[trigger] s[i] <= 57,
    ensures
        dec_value(s.take(k)) <= dec_value(s),
    decreases s.len() - k,
{
    if k < s.len() {
        assert(s.take(k + 1).drop_last() =~= s.take(k));
        assert(s.take(k + 1).last() == s[k]);
        lemma_dec_prefix_le(s, k + 1);
    } else {
        assert(s.take(k) =~= s);
    }
}

/// Parse an unsigned decimal numeral. Returns the denoted number exactly when
/// the input is a well-formed numeral whose value fits the machine word.
pub fn parse_usize(s: &Vec<u8>) -> (r: Option<usize>)
    ensures
        match r {
            Some(v) => is_dec_digits(s@) && dec_value(s@) <= usize::MAX && v as nat == dec_value(
                s@,
            ),
            None => !(is_dec_digits(s@) && dec_value(s@) <= usize::MAX),
        },
{
    if s.len() == 0 {
        return None;
    }
    let mut acc: usize = 0;
    let mut i: usize = 0;
    while i < s.len()
        invariant
            0 <= i <= s@.len(),
            s@.len() >= 1,
            forall|k: int| 0 <= k < i ==> 48 <= #[trigger] s@[k] <= 57,
            acc as nat == dec_value(s@.take(i as int)),
        decreases s@.len() - i,
    {
        let c = s[i];
        if c < 48 || c > 57 {
            return None;
        }
        let d = (c - 48) as usize;
        proof {
            assert(s@.take(i as int + 1).drop_last() =~= s@.take(i as int));
            assert(s@.take(i as int + 1).last() == s@[i as int]);
            let m = usize::MAX as int;
            let q = (m - d) / 10;
            vstd::arithmetic::div_mod::lemma_fundamental_div_mod(m - d, 10);
            assert(0 <= (m - d) % 10 < 10) by {
                vstd::arithmetic::div_mod::lemma_mod_bound(m - d, 10);
            }
            if acc as int > q {
                assert((acc as int) * 10 >= q * 10 + 10) by (nonlinear_arith)
                    requires
                        acc as int >= q + 1,
                ;
            } else {
                assert((acc as int) * 10 <= q * 10) by (nonlinear_arith)
                    requires
                        acc as int <= q,
                ;
            }
        }
        if acc > (usize::MAX - d) / 10 {
            proof {
                if is_dec_digits(s@) {
                    lemma_dec_prefix_le(s@, i as int + 1);
                }
            }
            return None;
        }
        acc = acc * 10 + d;
        i = i + 1;
    }
    proof {
        assert(s@.take(s@.len() as int) =~= s@);
    }
    Some(acc)
}

/// The lines of the reference file, with a final empty line (the product of a
/// trailing row delimiter) not counted.
pub open spec fn trimmed_lines(text: Seq<u8>) -> Seq<Seq<u8>> {
    let ls = split_bytes(text, ROW_DELIM);
    if ls.last().len() == 0 {
        ls.drop_last()
    } else {
        ls
    }
}

/// The data rows of the reference file: its lines, less exactly one header
/// line and less a final empty line.
pub open spec fn data_rows(text: Seq<u8>) -> Seq<Seq<u8>> {
    let ls = trimmed_lines(text);
    if ls.len() <= 1 {
        Seq::<Seq<u8>>::empty()
    } else {
        ls.skip(1)
    }
}

/// The fields of one data row.
pub open spec fn row_fields(row: Seq<u8>) -> Seq<Seq<u8>> {
    split_bytes(row, FIELD_DELIM)
}

/// A data row decodes: exactly five fields, the last of which is a decimal
/// identifier that fits the machine word.
pub open spec fn row_ok(row: Seq<u8>) -> bool {
    &&& row_fields(row).len() == 5
    &&& is_dec_digits(row_fields(row)[4])
    &&& dec_value(row_fields(row)[4]) <= usize::MAX
}

/// The record carries exactly the five fields of the row, in order.
pub open spec fn matches_row(rec: RawAirport, row: Seq<u8>) -> bool {
    &&& rec.name@ == row_fields(row)[0]
    &&& rec.abr@ == row_fields(row)[1]
    &&& rec.lat_text@ == row_fields(row)[2]
    &&& rec.long_text@ == row_fields(row)[3]
    &&& rec.id as nat == dec_value(row_fields(row)[4])
}

/// Decode the text of the reference file into its ordered record sequence.
///
/// The first line is the header and is skipped; every remaining line must
/// decode into the five-field shape, or the whole load is rejected — corrupt
/// reference data is never partially tolerated. Reading the file itself, and
/// turning the two coordinate fields into numeric values, are the caller's
/// steps; a file that cannot be read is that caller's `Io` failure.
pub fn from_csv(text: &Vec<u8>) -> (r: Result<Vec<RawAirport>, AirportError>)
    ensures
        match r {
            Ok(recs) => {
                &&& recs@.len() == data_rows(text@).len()
                &&& forall|i: int|
                    0 <= i < recs@.len() ==> row_ok(#[trigger] data_rows(text@)[i]) && matches_row(
                        recs@[i],
                        data_rows(text@)[i],
                    )
            },
            Err(e) => exists|i: int|
                {
                    &&& 0 <= i < data_rows(text@).len()
                    &&& e == AirportError::Decode(i as usize)
                    &&& !row_ok(#[trigger] data_rows(text@)[i])
                    &&& forall|k: int| 0 <= k < i ==> row_ok(#[trigger] data_rows(text@)[k])
                },
        },
{
    let mut lines = split_on(text, ROW_DELIM);
    proof {
        lemma_split_bytes_len(text@, ROW_DELIM);
    }
    if lines[lines.len() - 1].len() == 0 {
        let ghost old_lines = lines@;
        lines.pop();
        proof {
            lemma_views_drop_last(old_lines);
        }
    }
    proof {
        assert(seq_views(lines@) == trimmed_lines(text@));
    }
    let mut recs: Vec<RawAirport> = Vec::new();
    if lines.len() <= 1 {
        return Ok(recs);
    }
    let ghost rows = data_rows(text@);
    let mut li: usize = 1;
    while li < lines.len()
        invariant
            1 <= li <= lines@.len(),
            seq_views(lines@) == trimmed_lines(text@),
            lines@.len() > 1,
            rows == data_rows(text@),
            rows == seq_views(lines@).skip(1),
            recs@.len() == li - 1,
            forall|k: int|
                0 <= k < li - 1 ==> row_ok(#[trigger] rows[k]) && matches_row(recs@[k], rows[k]),
        decreases lines@.len() - li,
    {
        proof {
            assert(rows[li - 1] == seq_views(lines@)[li as int]);
            assert(seq_views(lines@)[li as int] == lines@[li as int]@);
        }
        let mut fields = split_on(&lines[li], FIELD_DELIM);
        if fields.len() != 5 {
            proof {
                assert(!row_ok(rows[li - 1]));
            }
            return Err(AirportError::Decode(li - 1));
        }
        let ghost fviews = seq_views(fields@);
        let id_text = pop_field(&mut fields);
        let long_text = pop_field(&mut fields);
        let lat_text = pop_field(&mut fields);
        let abr = pop_field(&mut fields);
        let name = pop_field(&mut fields);
        proof {
            assert(id_text@ == fviews[4]);
            assert(long_text@ == fviews[3]);
            assert(lat_text@ == fviews[2]);
            assert(abr@ == fviews[1]);
            assert(name@ == fviews[0]);
        }
        let id = match parse_usize(&id_text) {
            Some(v) => v,
            None => {
                proof {
                    assert(!row_ok(rows[li - 1]));
                }
                return Err(AirportError::Decode(li - 1));
            },
        };
        recs.push(RawAirport { name, abr, lat_text, long_text, id });
        li = li + 1;
    }
    Ok(recs)
}

/// Take the last field off a non-empty field list.
fn pop_field(fields: &mut Vec<Vec<u8>>) -> (f: Vec<u8>)
    requires
        old(fields)@.len() >= 1,
    ensures
        final(fields)@.len() == old(fields)@.len() - 1,
        f@ == seq_views(old(fields)@).last(),
        seq_views(final(fields)@) == seq_views(old(fields)@).drop_last(),
{
    proof {
        lemma_views_drop_last(old(fields)@);
    }
    let f = fields.pop().unwrap();
    f
}

} // verus!
