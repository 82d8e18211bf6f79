//! The metadata parser: one item's metadata record to a descriptor.
//!
//! A record is a small document with an `article` table holding `id`,
//! `title`, `description`, `markdown_path`, `date`, `tags` and
//! `keywords`.  The document syntax is read by the `toml` crate behind
//! trusted wrappers; everything after that — field presence, shapes,
//! ranges, and the all-or-nothing rule for string arrays — is verified
//! here.  Directory names are turned into article ids by a verified
//! decimal parser.

use vstd::prelude::*;
use vstd::string::StrSliceExecFns;

use crate::article::{ArticleId, Metainfo};
use crate::errors::EngineError;

verus! {

/// A decimal digit.
pub open spec fn is_dec_digit(c: char) -> bool {
    48 <= c as int <= 57
}

/// The numeric value of a decimal digit.
pub open spec fn digit_of(c: char) -> int {
    c as int - 48
}

/// Every character is a decimal digit.
pub open spec fn all_dec_digits(s: Seq<char>) -> bool {
    forall|i: int| 0 <= i < s.len() ==> is_dec_digit(s[i])
}

/// The number the digit string denotes.
pub open spec fn digits_val(s: Seq<char>) -> int
    decreases s.len(),
{
    if s.len() == 0 {
        0
    } else {
        digits_val(s.drop_last()) * 10 + digit_of(s.last())
    }
}

/// The integer an id text denotes: an optional sign followed by one or
/// more digits and nothing else, as the standard library's integer
/// parser reads it (without its range check).
pub open spec fn id_text_value(s: Seq<char>) -> Option<int> {
    if s.len() == 0 {
        None
    } else if s[0] == '-' {
        if s.len() > 1 && all_dec_digits(s.drop_first()) {
            Some(-digits_val(s.drop_first()))
        } else {
            None
        }
    } else if s[0] == '+' {
        if s.len() > 1 && all_dec_digits(s.drop_first()) {
            Some(digits_val(s.drop_first()))
        } else {
            None
        }
    } else {
        if all_dec_digits(s) {
            Some(digits_val(s))
        } else {
            None
        }
    }
}

/// A digit string denotes a non-negative number.
proof fn lemma_digits_val_nonneg(s: Seq<char>)
    requires
        all_dec_digits(s),
    ensures
        digits_val(s) >= 0,
    decreases s.len(),
{
    if s.len() > 0 {
        let d = s.drop_last();
        assert(all_dec_digits(d)) by {
            assert forall|i: int| 0 <= i < d.len() implies is_dec_digit(d[i]) by {
                assert(d[i] == s[i]);
            }
        }
        lemma_digits_val_nonneg(d);
    }
}

/// A prefix of a digit string denotes at most the whole string's
/// number.
proof fn lemma_digits_val_prefix(s: Seq<char>, k: int)
    requires
        0 <= k <= s.len(),
        all_dec_digits(s),
    ensures
        digits_val(s.take(k)) <= digits_val(s),
    decreases s.len() - k,
{
    if k == s.len() {
        assert(s.take(k) =~= s);
    } else {
        let a = s.take(k);
        let b = s.take(k + 1);
        assert(b.drop_last() =~= a);
        assert(b.last() == s[k]);
        assert(all_dec_digits(a)) by {
            assert forall|i: int| 0 <= i < a.len() implies is_dec_digit(a[i]) by {
                assert(a[i] == s[i]);
            }
        }
        lemma_digits_val_nonneg(a);
        assert(digits_val(b) == digits_val(a) * 10 + digit_of(s[k]));
        assert(digits_val(a) <= digits_val(b));
        lemma_digits_val_prefix(s, k + 1);
    }
}

/// Parse a directory name as an article id, exactly as the standard
/// library's integer parser would: an optional sign, then digits, and
/// failure on anything else or on a value outside the id range.
pub fn parse_article_id(s: &str) -> (r: Option<ArticleId>)
    ensures
        (r is Some) <==> (id_text_value(s@) matches Some(v) && i32::MIN <= v <= i32::MAX),
        r matches Some(v) ==> id_text_value(s@) == Some(v as int),
{
    let len = s.unicode_len();
    if len == 0 {
        return None;
    }
    let first = s.get_char(0);
    let mut start: usize = 0;
    let mut neg = false;
    if first == '-' {
        neg = true;
        start = 1;
    } else if first == '+' {
        start = 1;
    }
    if start == len {
        // A sign with no digits.
        return None;
    }
    let ghost digits = if start == 1 {
        s@.drop_first()
    } else {
        s@
    };
    proof {
        assert(s@.subrange(start as int, len as int) =~= digits);
    }
    let mut acc: u64 = 0;
    let mut i: usize = start;
    while i < len
        invariant
            start <= i <= len,
            len == s@.len(),
            start <= 1,
            start == 1 ==> (s@[0] == '-' || s@[0] == '+'),
            start == 0 ==> s@[0] != '-' && s@[0] != '+',
            neg <==> (start == 1 && s@[0] == '-'),
            len > start,
            digits == s@.subrange(start as int, len as int),
            all_dec_digits(s@.subrange(start as int, i as int)),
            acc == digits_val(s@.subrange(start as int, i as int)),
            acc <= 0x8000_0000u64,
        decreases len - i,
    {
        let c = s.get_char(i);
        let cv = c as u32;
        if cv < 48 || cv > 57 {
            proof {
                assert(!is_dec_digit(s@[i as int]));
                assert(!all_dec_digits(digits)) by {
                    assert(digits[i - start] == s@[i as int]);
                }
            }
            return None;
        }
        let d = (cv - 48) as u64;
        let ghost pre = s@.subrange(start as int, i as int);
        acc = acc * 10 + d;
        proof {
            let cur = s@.subrange(start as int, i + 1 as int);
            assert(cur.drop_last() =~= pre);
            assert(cur.last() == s@[i as int]);
            assert(is_dec_digit(s@[i as int]));
            assert(digit_of(s@[i as int]) == d);
            assert(acc == digits_val(cur));
            assert(all_dec_digits(cur)) by {
                assert forall|p: int| 0 <= p < cur.len() implies is_dec_digit(cur[p]) by {
                    if p < cur.len() - 1 {
                        assert(cur[p] == pre[p]);
                    }
                }
            }
        }
        if acc > 0x8000_0000u64 {
            proof {
                lemma_value_too_large(s@, digits, start as int, i + 1 as int, acc as int);
            }
            return None;
        }
        i += 1;
    }
    proof {
        assert(s@.subrange(start as int, len as int) == digits);
        assert(all_dec_digits(digits));
        assert(acc == digits_val(digits));
        lemma_digits_val_nonneg(digits);
        if start == 1 {
            assert(s@.len() > 1);
        }
    }
    if neg {
        let v = -(acc as i64);
        proof {
            assert(i32::MIN <= v <= i32::MAX);
            assert(id_text_value(s@) == Some(-digits_val(digits)));
        }
        Some(v as i32)
    } else {
        if acc > 0x7FFF_FFFFu64 {
            proof {
                assert(id_text_value(s@) == Some(digits_val(digits)));
                assert(digits_val(digits) > i32::MAX);
            }
            return None;
        }
        proof {
            assert(id_text_value(s@) == Some(digits_val(digits)));
        }
        Some(acc as i32)
    }
}

/// One record's fields as plain optional values: `None` stands for a
/// missing field or one of the wrong shape, and a `None` inside an
/// array for a non-string entry.
pub struct RawMetainfo {
    pub id: Option<i64>,
    pub title: Option<String>,
    pub description: Option<String>,
    pub markdown_path: Option<String>,
    pub date: Option<i64>,
    pub tags: Option<Vec<Option<String>>>,
    pub keywords: Option<Vec<Option<String>>>,
}

/// What the `article` table of a record text holds, field by field:
/// the toml crate's reading of the text, or `None` when the text is
/// not a well-formed document with an `article` table.  A function of
/// the text alone.
pub uninterp spec fn toml_article_fields(text: Seq<char>) -> Option<RawMetainfo>;

#[verifier::external_type_specification]
#[verifier::external_body]
pub struct ExTomlValue(toml::Value);

/// Relies on `toml::from_str` and `toml::Value::{get, as_integer}`:
/// the fields of the `article` table, read from the record text and
/// nothing else.
#[verifier::external_body]
fn extract_article_fields(text: &str) -> (r: Option<RawMetainfo>)
    ensures
        r == toml_article_fields(text@),
{
    let doc: toml::Value = toml::from_str(text).ok()?;
    let a = doc.get("article")?;
    Some(RawMetainfo {
        id: a.get("id").and_then(toml::Value::as_integer),
        title: text_field(a.get("title")),
        description: text_field(a.get("description")),
        markdown_path: text_field(a.get("markdown_path")),
        date: a.get("date").and_then(toml::Value::as_integer),
        tags: array_field(a.get("tags")),
        keywords: array_field(a.get("keywords")),
    })
}

/// Relies on `toml::Value::as_str`: the text payload of an optional
/// value, owned.
#[verifier::external_body]
fn text_field(v: Option<&toml::Value>) -> Option<String> {
    v.and_then(toml::Value::as_str).map(str::to_owned)
}

/// Relies on `toml::Value::{as_array, as_str}`: the array payload of
/// an optional value, each element as an optional owned string.
#[verifier::external_body]
fn array_field(v: Option<&toml::Value>) -> Option<Vec<Option<String>>> {
    v.and_then(toml::Value::as_array).map(
        |xs| xs.iter().map(|x| x.as_str().map(str::to_owned)).collect(),
    )
}

/// The array is present and every entry is a string.
pub open spec fn strings_complete(v: Option<Vec<Option<String>>>) -> bool {
    v matches Some(xs) && forall|i: int| 0 <= i < xs@.len() ==> xs@[i] is Some
}

/// The descriptor carries exactly the record's raw fields: the same
/// id, texts and date, and the same tag and keyword lists entry for
/// entry.
pub open spec fn meta_from_raw(m: Metainfo, raw: RawMetainfo) -> bool {
    &&& raw.id == Some(m.id as i64)
    &&& (raw.title matches Some(t) && m.title == t)
    &&& (raw.description matches Some(t) && m.description == t)
    &&& (raw.markdown_path matches Some(t) && m.markdown_path == t)
    &&& raw.date == Some(m.date as i64)
    &&& (raw.tags matches Some(ts) && m.tags@.len() == ts@.len() && (forall|i: int|
        0 <= i < m.tags@.len() ==> m.tags@[i] == #[trigger] ts@[i]->Some_0))
    &&& (raw.keywords matches Some(ks) && m.keywords@.len() == ks@.len() && (forall|i: int|
        0 <= i < m.keywords@.len() ==> m.keywords@[i] == #[trigger] ks@[i]->Some_0))
}

/// Every required field is present, of the right shape and in range.
pub open spec fn raw_complete(raw: RawMetainfo) -> bool {
    &&& raw.id matches Some(v) && i32::MIN <= v <= i32::MAX
    &&& raw.title is Some
    &&& raw.description is Some
    &&& raw.markdown_path is Some
    &&& raw.date matches Some(d) && 0 <= d <= u32::MAX
    &&& strings_complete(raw.tags)
    &&& strings_complete(raw.keywords)
}

/// Fail unless every entry of the array is a string: a single entry of
/// another shape rejects the whole record.
fn unwrap_strings(xs: Vec<Option<String>>) -> (r: Result<Vec<String>, EngineError>)
    ensures
        (r is Ok) <==> (forall|i: int| 0 <= i < xs@.len() ==> xs@[i] is Some),
        r matches Ok(v) ==> v@.len() == xs@.len() && (forall|i: int|
            0 <= i < v@.len() ==> v@[i] == #[trigger] xs@[i]->Some_0),
        r matches Err(e) ==> e == EngineError::MalformedMetadata,
{
    let ghost orig = xs@;
    let mut rest = xs;
    let mut out: Vec<String> = Vec::new();
    while rest.len() > 0
        invariant
            orig == xs@,
            out@.len() <= orig.len(),
            rest@ == orig.subrange(out@.len() as int, orig.len() as int),
            forall|i: int| 0 <= i < out@.len() ==> orig[i] is Some,
            forall|i: int| 0 <= i < out@.len() ==> out@[i] == #[trigger] orig[i]->Some_0,
        decreases rest@.len(),
    {
        let ghost k = out@.len() as int;
        let x = rest.remove(0);
        proof {
            assert(x == orig[k]);
            assert(rest@ =~= orig.subrange(k + 1, orig.len() as int));
        }
        match x {
            Some(s) => {
                out.push(s);
            },
            None => {
                proof {
                    assert(0 <= k < orig.len() && orig[k] is None);
                    assert(!(forall|i: int| 0 <= i < orig.len() ==> orig[i] is Some)) by {
                        assert(!(0 <= k < orig.len() ==> orig[k] is Some));
                    }
                }
                return Err(EngineError::MalformedMetadata);
            },
        }
    }
    proof {
        assert(out@.len() == orig.len());
    }
    Ok(out)
}

/// Build a descriptor from a record's raw fields, or fail with
/// `MalformedMetadata` exactly when a required field is missing, of the
/// wrong shape, or out of range.  No partial acceptance: one bad array
/// entry rejects the record.
pub fn build_descriptor(raw: RawMetainfo) -> (r: Result<Metainfo, EngineError>)
    ensures
        (r is Ok) <==> raw_complete(raw),
        r matches Err(e) ==> e == EngineError::MalformedMetadata,
        r matches Ok(m) ==> meta_from_raw(m, raw),
{
    let id64 = match raw.id {
        Some(v) => v,
        None => {
            return Err(EngineError::MalformedMetadata);
        },
    };
    if id64 < -0x8000_0000i64 || id64 > 0x7FFF_FFFFi64 {
        return Err(EngineError::MalformedMetadata);
    }
    let title = match raw.title {
        Some(t) => t,
        None => {
            return Err(EngineError::MalformedMetadata);
        },
    };
    let description = match raw.description {
        Some(t) => t,
        None => {
            return Err(EngineError::MalformedMetadata);
        },
    };
    let markdown_path = match raw.markdown_path {
        Some(t) => t,
        None => {
            return Err(EngineError::MalformedMetadata);
        },
    };
    let date64 = match raw.date {
        Some(d) => d,
        None => {
            return Err(EngineError::MalformedMetadata);
        },
    };
    if date64 < 0 || date64 > 0xFFFF_FFFFi64 {
        return Err(EngineError::MalformedMetadata);
    }
    let tags = match raw.tags {
        Some(ts) => match unwrap_strings(ts) {
            Ok(v) => v,
            Err(e) => {
                return Err(e);
            },
        },
        None => {
            return Err(EngineError::MalformedMetadata);
        },
    };
    let keywords = match raw.keywords {
        Some(ks) => match unwrap_strings(ks) {
            Ok(v) => v,
            Err(e) => {
                return Err(e);
            },
        },
        None => {
            return Err(EngineError::MalformedMetadata);
        },
    };
    Ok(
        Metainfo {
            id: id64 as i32,
            title: std::sync::Arc::new(title),
            description: std::sync::Arc::new(description),
            markdown_path: std::sync::Arc::new(markdown_path),
            date: date64 as u32,
            tags: std::sync::Arc::new(tags),
            keywords: std::sync::Arc::new(keywords),
        },
    )
}

/// Parse one metadata record into a descriptor.  It succeeds exactly
/// when the record text carries an `article` table whose required
/// fields are all present, of the right shape and in range; the
/// descriptor then holds those fields, and every other text fails with
/// `MalformedMetadata`.
pub fn parse_metainfo(text: &str) -> (r: Result<Metainfo, EngineError>)
    ensures
        (r is Ok) <==> (toml_article_fields(text@) matches Some(raw) && raw_complete(raw)),
        r matches Err(e) ==> e == EngineError::MalformedMetadata,
        r matches Ok(m) ==> (toml_article_fields(text@) matches Some(raw) && meta_from_raw(
            m,
            raw,
        )),
{
    match extract_article_fields(text) {
        Some(raw) => build_descriptor(raw),
        None => Err(EngineError::MalformedMetadata),
    }
}

/// When a digit prefix already denotes more than the id range can
/// hold, the whole text denotes a value out of range, whatever follows.
proof fn lemma_value_too_large(s: Seq<char>, digits: Seq<char>, start: int, upto: int, acc: int)
    requires
        0 <= start <= 1,
        start < upto <= s.len(),
        s.len() > start,
        digits == s.subrange(start, s.len() as int),
        start == 1 ==> (s[0] == '-' || s[0] == '+'),
        start == 0 ==> (s[0] != '-' && s[0] != '+'),
        all_dec_digits(s.subrange(start, upto)),
        acc == digits_val(s.subrange(start, upto)),
        acc > 0x8000_0000,
    ensures
        !(id_text_value(s) matches Some(v) && i32::MIN <= v <= i32::MAX),
{
    if id_text_value(s) is Some {
        let v = id_text_value(s)->Some_0;
        assert(all_dec_digits(digits)) by {
            if start == 1 {
                assert(digits =~= s.drop_first());
                if !all_dec_digits(s.drop_first()) {
                    assert(id_text_value(s) is None);
                }
            } else {
                assert(digits =~= s);
                if !all_dec_digits(s) {
                    assert(id_text_value(s) is None);
                }
            }
        }
        assert(digits.take(upto - start) =~= s.subrange(start, upto));
        lemma_digits_val_prefix(digits, upto - start);
        assert(digits_val(digits) >= acc);
        if start == 1 && s[0] == '-' {
            assert(digits =~= s.drop_first());
            assert(v == -digits_val(s.drop_first()));
            assert(v < i32::MIN);
        } else if start == 1 {
            assert(digits =~= s.drop_first());
            assert(v == digits_val(s.drop_first()));
            assert(v > i32::MAX);
        } else {
            assert(digits =~= s);
            assert(v == digits_val(s));
            assert(v > i32::MAX);
        }
    }
}

} // verus!
