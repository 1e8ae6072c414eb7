//! The policy-offload scanner's computation: it generates the rule program
//! handed to the external bulk-scan engine, parses the engine's output list
//! files, and assembles the aggregate. Running the engine and reading its
//! files is the caller's part; every byte it reads or writes goes through
//! here as a plain value.

use vstd::prelude::*;

use bstr::ByteSlice;

use crate::data::AggView;
use crate::data::CountView;
use crate::data::Data;
use crate::data::seed_ages;
use crate::data::lemma_seed_ages;
use crate::digits::dec_digits;
use crate::digits::spec_parse_u64;
use crate::digits::parse_u64;
use crate::digits::u64_to_string;
use crate::error::Error;
use crate::error::ErrorKind;

verus! {

/// The rule program's fixed opening: the two derived age quantities and the
/// external declaration of the unconditional `total` list.
pub open spec fn spec_policy_header() -> Seq<char> {
    "\ndefine(access_age, (DAYS(CURRENT_TIMESTAMP) - DAYS(ACCESS_TIME)))\ndefine(modify_age, (DAYS(CURRENT_TIMESTAMP) - DAYS(MODIFICATION_TIME)))\n\nRULE EXTERNAL LIST 'total' EXEC ''\n"@
}

/// One age's external list declarations.
pub open spec fn spec_policy_external(age: u64) -> Seq<char> {
    "\nRULE EXTERNAL LIST 'access_"@ + dec_digits(age as nat) + "' EXEC ''\nRULE EXTERNAL LIST 'modify_"@
        + dec_digits(age as nat) + "' EXEC ''\n"@
}

/// The unconditional rule collecting every file's size into `total`.
pub open spec fn spec_policy_total_rule() -> Seq<char> {
    "\nRULE\n  LIST 'total'\n  SHOW(VARCHAR(FILE_SIZE))\n"@
}

/// One age's two conditional rules: a file's size goes to `access_<age>`
/// (respectively `modify_<age>`) when it was touched more recently than the
/// threshold.
pub open spec fn spec_policy_rule(age: u64) -> Seq<char> {
    "\nRULE\n  LIST 'access_"@ + dec_digits(age as nat)
        + "'\n    SHOW(VARCHAR(FILE_SIZE))\n    WHERE (access_age < "@ + dec_digits(age as nat)
        + ")\n\nRULE\n  LIST 'modify_"@ + dec_digits(age as nat)
        + "'\n    SHOW(VARCHAR(FILE_SIZE))\n    WHERE (modify_age < "@ + dec_digits(age as nat)
        + ")\n"@
}

pub open spec fn spec_policy_externals(ages: Seq<u64>) -> Seq<char>
    decreases ages.len(),
{
    if ages.len() == 0 {
        Seq::empty()
    } else {
        spec_policy_externals(ages.drop_last()) + spec_policy_external(ages.last())
    }
}

pub open spec fn spec_policy_rules(ages: Seq<u64>) -> Seq<char>
    decreases ages.len(),
{
    if ages.len() == 0 {
        Seq::empty()
    } else {
        spec_policy_rules(ages.drop_last()) + spec_policy_rule(ages.last())
    }
}

/// The whole rule program for an age list. The exact text, declaration
/// order included, is a compatibility surface: it is a function of the age
/// list alone.
pub open spec fn spec_policy_text(ages: Seq<u64>) -> Seq<char> {
    spec_policy_header() + spec_policy_externals(ages) + spec_policy_total_rule()
        + spec_policy_rules(ages)
}

/// Renders the rule program for the given ages.
pub fn policy_text(ages: &[u64]) -> (r: String)
    ensures
        r@ == spec_policy_text(ages@),
{
    let mut text = String::new();
    text.append(
        "\ndefine(access_age, (DAYS(CURRENT_TIMESTAMP) - DAYS(ACCESS_TIME)))\ndefine(modify_age, (DAYS(CURRENT_TIMESTAMP) - DAYS(MODIFICATION_TIME)))\n\nRULE EXTERNAL LIST 'total' EXEC ''\n",
    );
    let n = ages.len();
    let mut i: usize = 0;
    while i < n
        invariant
            0 <= i <= n == ages@.len(),
            text@ == spec_policy_header() + spec_policy_externals(ages@.take(i as int)),
        decreases n - i,
    {
        let digits = u64_to_string(ages[i]);
        text.append("\nRULE EXTERNAL LIST 'access_");
        text.append(digits.as_str());
        text.append("' EXEC ''\nRULE EXTERNAL LIST 'modify_");
        text.append(digits.as_str());
        text.append("' EXEC ''\n");
        proof {
            assert(ages@.take(i + 1).drop_last() =~= ages@.take(i as int));
            assert(text@ =~= spec_policy_header() + spec_policy_externals(ages@.take(i + 1)));
        }
        i = i + 1;
    }
    proof {
        assert(ages@.take(n as int) =~= ages@);
    }
    text.append("\nRULE\n  LIST 'total'\n  SHOW(VARCHAR(FILE_SIZE))\n");
    let mut j: usize = 0;
    while j < n
        invariant
            0 <= j <= n == ages@.len(),
            text@ == spec_policy_header() + spec_policy_externals(ages@)
                + spec_policy_total_rule() + spec_policy_rules(ages@.take(j as int)),
        decreases n - j,
    {
        let digits = u64_to_string(ages[j]);
        text.append("\nRULE\n  LIST 'access_");
        text.append(digits.as_str());
        text.append("'\n    SHOW(VARCHAR(FILE_SIZE))\n    WHERE (access_age < ");
        text.append(digits.as_str());
        text.append(")\n\nRULE\n  LIST 'modify_");
        text.append(digits.as_str());
        text.append("'\n    SHOW(VARCHAR(FILE_SIZE))\n    WHERE (modify_age < ");
        text.append(digits.as_str());
        text.append(")\n");
        proof {
            assert(ages@.take(j + 1).drop_last() =~= ages@.take(j as int));
            assert(text@ =~= spec_policy_header() + spec_policy_externals(ages@)
                + spec_policy_total_rule() + spec_policy_rules(ages@.take(j + 1)));
        }
        j = j + 1;
    }
    proof {
        assert(ages@.take(n as int) =~= ages@);
        assert(text@ =~= spec_policy_text(ages@));
    }
    text
}

/// Rendering the rule program is deterministic: any two renders of the same
/// age list are the same text, character for character.
pub proof fn lemma_policy_text_deterministic(ages: Seq<u64>, r1: Seq<char>, r2: Seq<char>)
    requires
        r1 == spec_policy_text(ages),
        r2 == spec_policy_text(ages),
    ensures
        r1 == r2,
{
}

/// The first index of the byte in the sequence, or -1.
pub open spec fn find_byte(s: Seq<u8>, b: u8) -> int
    decreases s.len(),
{
    if s.len() == 0 {
        -1
    } else if s[0] == b {
        0
    } else {
        let r = find_byte(s.drop_first(), b);
        if r < 0 {
            -1
        } else {
            r + 1
        }
    }
}

/// A carriage return just before a line terminator is part of it.
pub open spec fn trim_cr(l: Seq<u8>) -> Seq<u8> {
    if l.len() > 0 && l.last() == 13 {
        l.drop_last()
    } else {
        l
    }
}

/// The lines of a byte string: terminated by a line feed (with any
/// carriage return before it dropped), the last line also by the end of
/// the string.
pub open spec fn spec_lines(s: Seq<u8>) -> Seq<Seq<u8>>
    decreases s.len(),
{
    if s.len() == 0 {
        Seq::empty()
    } else {
        let i = find_byte(s, 10);
        if 0 <= i < s.len() {
            seq![trim_cr(s.take(i))] + spec_lines(s.skip(i + 1))
        } else {
            seq![s]
        }
    }
}

/// At most `limit` pieces of the sequence split on the separator; the last
/// piece holds the rest.
pub open spec fn spec_splitn(s: Seq<u8>, limit: nat, sep: u8) -> Seq<Seq<u8>>
    decreases limit,
{
    if limit == 0 {
        Seq::empty()
    } else if limit == 1 {
        seq![s]
    } else {
        let i = find_byte(s, sep);
        if 0 <= i < s.len() {
            seq![s.take(i)] + spec_splitn(s.skip(i + 1), (limit - 1) as nat, sep)
        } else {
            seq![s]
        }
    }
}

/// Relies on bstr's `ByteSlice::lines`: the content's lines, terminated by
/// a line feed (a carriage return before it is dropped too) or by the end
/// of the content.
#[verifier::external_body]
fn byte_lines(content: &[u8]) -> (r: Vec<Vec<u8>>)
    ensures
        r.deep_view() == spec_lines(content@),
{
    content.lines().map(|l| l.to_vec()).collect()
}

/// Relies on bstr's `ByteSlice::splitn_str`: at most `limit` pieces of the
/// line split on the separator, the last piece holding the rest.
#[verifier::external_body]
fn split_fields(line: &[u8], limit: usize, sep: u8) -> (r: Vec<Vec<u8>>)
    ensures
        r.deep_view() == spec_splitn(line@, limit as nat, sep),
{
    let sep_one = [sep];
    line.splitn_str(limit, &sep_one[..]).map(|f| f.to_vec()).collect()
}

/// One record's size: the fifth of at most six space-separated fields,
/// read as a decimal; nothing where the record has no such field or it is
/// not a number.
pub open spec fn spec_line_size(l: Seq<u8>) -> Option<u64> {
    let fields = spec_splitn(l, 6, 32);
    if fields.len() >= 5 {
        spec_parse_u64(fields[4])
    } else {
        None
    }
}

/// The records' sizes summed and the records counted; nothing where any
/// record is malformed or a sum leaves the unsigned 64-bit range.
pub open spec fn spec_sum_lines(ls: Seq<Seq<u8>>) -> Option<(u64, u64)>
    decreases ls.len(),
{
    if ls.len() == 0 {
        Some((0, 0))
    } else {
        match (spec_sum_lines(ls.drop_last()), spec_line_size(ls.last())) {
            (Some(acc), Some(sz)) => if acc.0 + sz <= u64::MAX && acc.1 + 1 <= u64::MAX {
                Some(((acc.0 + sz) as u64, (acc.1 + 1) as u64))
            } else {
                None
            },
            _ => None,
        }
    }
}

/// What parsing one output list yields.
pub open spec fn spec_sum_list(content: Seq<u8>) -> Option<(u64, u64)> {
    spec_sum_lines(spec_lines(content))
}

/// A failed prefix fails the whole sum.
proof fn lemma_sum_lines_none(ls: Seq<Seq<u8>>, i: int)
    requires
        0 <= i <= ls.len(),
        spec_sum_lines(ls.take(i)) is None,
    ensures
        spec_sum_lines(ls) is None,
    decreases ls.len() - i,
{
    if i == ls.len() {
        assert(ls.take(i) =~= ls);
    } else {
        assert(ls.take(i + 1).drop_last() =~= ls.take(i));
        lemma_sum_lines_none(ls, i + 1);
    }
}

/// Sums one output list: the total size and the record count, or the
/// corrupt-output error on a malformed record or an overflowing sum.
pub fn sum_list(content: &[u8]) -> (r: Result<(u64, u64), Error>)
    ensures
        r matches Ok(p) ==> spec_sum_list(content@) == Some(p),
        r matches Err(e) ==> spec_sum_list(content@) is None && e.kind == ErrorKind::CorruptOutput,
{
    let lines = byte_lines(content);
    let ghost ls = spec_lines(content@);
    let mut bytes: u64 = 0;
    let mut files: u64 = 0;
    let n = lines.len();
    let mut i: usize = 0;
    while i < n
        invariant
            0 <= i <= n == ls.len(),
            lines.deep_view() == ls,
            ls == spec_lines(content@),
            files as int == i as int,
            spec_sum_lines(ls.take(i as int)) == Some((bytes, files)),
        decreases n - i,
    {
        proof {
            assert(ls.take(i + 1).drop_last() =~= ls.take(i as int));
            assert(ls.take(i + 1).last() == ls[i as int]);
            assert(lines.deep_view()[i as int] == lines@[i as int].deep_view());
            assert(lines@[i as int].deep_view() =~= lines@[i as int]@);
        }
        let line = &lines[i];
        let fields = split_fields(line.as_slice(), 6, 32);
        proof {
            assert(fields.deep_view() == spec_splitn(ls[i as int], 6, 32));
            assert(fields.deep_view().len() == fields@.len());
        }
        if fields.len() < 5 {
            proof {
                assert(spec_line_size(ls[i as int]) is None);
                lemma_sum_lines_none(ls, i + 1);
            }
            return Err(Error::new("malformed record in scan output", ErrorKind::CorruptOutput));
        }
        proof {
            assert(fields.deep_view()[4] == fields@[4].deep_view());
            assert(fields@[4].deep_view() =~= fields@[4]@);
        }
        let size = match parse_u64(fields[4].as_slice()) {
            Some(v) => v,
            None => {
                proof {
                    assert(spec_line_size(ls[i as int]) is None);
                    lemma_sum_lines_none(ls, i + 1);
                }
                return Err(
                    Error::new("malformed size field in scan output", ErrorKind::CorruptOutput),
                );
            },
        };
        bytes = match bytes.checked_add(size) {
            Some(v) => v,
            None => {
                proof {
                    lemma_sum_lines_none(ls, i + 1);
                }
                return Err(
                    Error::new("size sum overflows in scan output", ErrorKind::CorruptOutput),
                );
            },
        };
        files = files + 1;
        i = i + 1;
    }
    proof {
        assert(ls.take(n as int) =~= ls);
    }
    Ok((bytes, files))
}

/// One age's output lists as read back, or `None` for a list file that
/// does not exist: no matches, counted as zero.
#[derive(Debug)]
pub struct AgeLists {
    pub age: u64,
    pub access: Option<Vec<u8>>,
    pub modify: Option<Vec<u8>>,
}

/// An absent list stands for zero matches.
pub open spec fn spec_opt_sum(o: Option<Vec<u8>>) -> Option<(u64, u64)> {
    match o {
        Option::None => Some((0u64, 0u64)),
        Option::Some(c) => spec_sum_list(c@),
    }
}

/// One age's bucket from its two lists.
pub open spec fn spec_age_counts(l: AgeLists) -> Option<CountView> {
    match (spec_opt_sum(l.access), spec_opt_sum(l.modify)) {
        (Some(a), Some(m)) => Some(
            CountView {
                accessed_bytes: a.0 as int,
                modified_bytes: m.0 as int,
                accessed_files: a.1 as int,
                modified_files: m.1 as int,
            },
        ),
        _ => None,
    }
}

/// The listed ages, in order.
pub open spec fn ages_of_lists(lists: Seq<AgeLists>) -> Seq<u64> {
    lists.map_values(|l: AgeLists| l.age)
}

/// Each age's bucket written over the seeded map, left to right.
pub open spec fn spec_fill(m: Map<u64, CountView>, lists: Seq<AgeLists>) -> Option<
    Map<u64, CountView>,
>
    decreases lists.len(),
{
    if lists.len() == 0 {
        Some(m)
    } else {
        match (spec_fill(m, lists.drop_last()), spec_age_counts(lists.last())) {
            (Some(mm), Some(c)) => Some(mm.insert(lists.last().age, c)),
            _ => None,
        }
    }
}

/// What assembling the output lists yields: the totals from the `total`
/// list and one bucket per age from its two lists; nothing where any list
/// is corrupt or any bucket would exceed the totals.
pub open spec fn spec_aggregate(total: Option<Vec<u8>>, lists: Seq<AgeLists>) -> Option<AggView> {
    match spec_opt_sum(total) {
        Option::None => Option::None,
        Option::Some(t) => match spec_fill(
            seed_ages(Map::empty(), ages_of_lists(lists)),
            lists,
        ) {
            Option::None => Option::None,
            Option::Some(m) => if forall|i: int|
                0 <= i < lists.len() ==> (#[trigger] spec_age_counts(lists[i]))->Some_0.within(
                    t.0 as int,
                    t.1 as int,
                ) {
                Option::Some(AggView { total_bytes: t.0 as int, total_files: t.1 as int, buckets: m })
            } else {
                Option::None
            },
        },
    }
}

/// A failing age fails the whole fill.
proof fn lemma_fill_none(m: Map<u64, CountView>, lists: Seq<AgeLists>, i: int)
    requires
        0 <= i < lists.len(),
        spec_age_counts(lists[i]) is None,
    ensures
        spec_fill(m, lists) is None,
    decreases lists.len(),
{
    if i < lists.len() - 1 {
        assert(lists.drop_last()[i] == lists[i]);
        lemma_fill_none(m, lists.drop_last(), i);
    }
}

/// Sums one optional list.
fn opt_sum(o: &Option<Vec<u8>>) -> (r: Result<(u64, u64), Error>)
    ensures
        r matches Ok(p) ==> spec_opt_sum(*o) == Some(p),
        r matches Err(e) ==> spec_opt_sum(*o) is None && e.kind == ErrorKind::CorruptOutput,
{
    match o {
        Option::None => Ok((0, 0)),
        Option::Some(c) => sum_list(c.as_slice()),
    }
}

/// Assembles the aggregate from the engine's output lists: the totals from
/// the `total` list, one bucket per age from its `access` and `modify`
/// lists, an absent list counting as zero. Fails with the corrupt-output
/// error where a record is malformed, a sum overflows, or a bucket would
/// exceed the totals.
pub fn aggregate_lists(total: &Option<Vec<u8>>, lists: &Vec<AgeLists>) -> (r: Result<Data, Error>)
    ensures
        r matches Ok(d) ==> d.wf() && spec_aggregate(*total, lists@) == Some(d@) && d@.bounded(),
        r matches Err(e) ==> spec_aggregate(*total, lists@) is None && e.kind
            == ErrorKind::CorruptOutput,
{
    let (total_bytes, total_files) = match opt_sum(total) {
        Ok(p) => p,
        Err(e) => {
            return Err(e);
        },
    };
    let n = lists.len();
    let mut ages: Vec<u64> = Vec::new();
    let mut i: usize = 0;
    while i < n
        invariant
            0 <= i <= n == lists@.len(),
            ages@ == ages_of_lists(lists@.take(i as int)),
        decreases n - i,
    {
        ages.push(lists[i].age);
        proof {
            assert(ages_of_lists(lists@.take(i + 1)) =~= ages_of_lists(
                lists@.take(i as int),
            ).push(lists@[i as int].age));
        }
        i = i + 1;
    }
    proof {
        assert(lists@.take(n as int) =~= lists@);
    }
    let mut d = Data::default().with_ages(ages.as_slice()).with_total_bytes(
        total_bytes,
    ).with_total_files(total_files);
    let ghost seeded = seed_ages(Map::empty(), ages_of_lists(lists@));
    proof {
        lemma_seed_ages(Map::empty(), ages_of_lists(lists@));
    }
    let mut j: usize = 0;
    while j < n
        invariant
            0 <= j <= n == lists@.len(),
            d.wf(),
            d@.total_bytes == total_bytes as int,
            d@.total_files == total_files as int,
            spec_opt_sum(*total) == Some((total_bytes, total_files)),
            Some(d@.buckets) == spec_fill(seeded, lists@.take(j as int)),
            seeded == seed_ages(Map::empty(), ages_of_lists(lists@)),
            forall|k: u64|
                #[trigger] d@.buckets.dom().contains(k) ==> d@.buckets[k].within(
                    total_bytes as int,
                    total_files as int,
                ),
            forall|i2: int|
                0 <= i2 < j ==> (#[trigger] spec_age_counts(lists@[i2]))->Some_0.within(
                    total_bytes as int,
                    total_files as int,
                ),
        decreases n - j,
    {
        proof {
            assert(lists@.take(j + 1).drop_last() =~= lists@.take(j as int));
            assert(lists@.take(j + 1).last() == lists@[j as int]);
        }
        let entry = &lists[j];
        let (a_b, a_f) = match opt_sum(&entry.access) {
            Ok(p) => p,
            Err(e) => {
                proof {
                    lemma_fill_none(seeded, lists@, j as int);
                }
                return Err(e);
            },
        };
        let (m_b, m_f) = match opt_sum(&entry.modify) {
            Ok(p) => p,
            Err(e) => {
                proof {
                    lemma_fill_none(seeded, lists@, j as int);
                }
                return Err(e);
            },
        };
        if a_b > total_bytes || m_b > total_bytes || a_f > total_files || m_f > total_files {
            proof {
                assert(spec_age_counts(lists@[j as int]) matches Some(c) && !c.within(
                    total_bytes as int,
                    total_files as int,
                ));
                if spec_aggregate(*total, lists@) is Some {
                    assert((spec_age_counts(lists@[j as int]))->Some_0.within(
                        total_bytes as int,
                        total_files as int,
                    ));
                }
            }
            return Err(
                Error::new("scan output list exceeds the totals", ErrorKind::CorruptOutput),
            );
        }
        d.insert(entry.age, a_b, m_b, a_f, m_f);
        j = j + 1;
    }
    proof {
        assert(lists@.take(n as int) =~= lists@);
        assert(spec_aggregate(*total, lists@) == Some(d@)) by {
            assert(d@ =~= AggView {
                total_bytes: total_bytes as int,
                total_files: total_files as int,
                buckets: d@.buckets,
            });
        }
    }
    Ok(d)
}

} // verus!
