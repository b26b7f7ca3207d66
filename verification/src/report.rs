//! The result of a benchmark run as a line of comma-separated values.

use vstd::prelude::*;
use vstd::string::StringExecFns;

verus! {

/// The statistics of a latency, written out as numbers.
pub struct LatencySummary {
    pub mean: String,
    pub standard_deviation: String,
    pub max: String,
}

/// The fields with a comma between each two of them.
pub open spec fn comma_separated(fields: Seq<Seq<char>>) -> Seq<char>
    decreases fields.len(),
{
    if fields.len() == 0 {
        Seq::empty()
    } else if fields.len() == 1 {
        fields[0]
    } else {
        comma_separated(fields.drop_last()) + seq![','] + fields.last()
    }
}

/// The fields of a report: mean, standard deviation and maximum of the time until transactions
/// were accepted, and the same of the time until their e-cash tokens were received.
pub open spec fn report_fields(accept: LatencySummary, coins: LatencySummary) -> Seq<Seq<char>> {
    seq![
        accept.mean@,
        accept.standard_deviation@,
        accept.max@,
        coins.mean@,
        coins.standard_deviation@,
        coins.max@,
    ]
}

/// Appends a field to a line.
fn append_field(line: &mut String, field: &String, Ghost(fields): Ghost<Seq<Seq<char>>>)
    requires
        old(line)@ == comma_separated(fields),
        fields.len() > 0,
    ensures
        final(line)@ == comma_separated(fields.push(field@)),
{
    proof {
        reveal_strlit(",");
        assert(","@ =~= seq![',']);
        assert(fields.push(field@).drop_last() =~= fields);
    }
    line.append(",");
    line.append(field.as_str());
}

/// Writes the result of a run as one line of comma-separated values.
pub fn csv_line(accept: &LatencySummary, coins: &LatencySummary) -> (line: String)
    ensures
        line@ == comma_separated(report_fields(*accept, *coins)),
        line@ == accept.mean@ + seq![','] + accept.standard_deviation@ + seq![','] + accept.max@
            + seq![','] + coins.mean@ + seq![','] + coins.standard_deviation@ + seq![',']
            + coins.max@,
{
    let mut line: String = accept.mean.clone();
    let ghost all = report_fields(*accept, *coins);
    assert(all.take(1) =~= seq![accept.mean@]);
    append_field(&mut line, &accept.standard_deviation, Ghost(all.take(1)));
    assert(all.take(2) =~= all.take(1).push(all[1]));
    append_field(&mut line, &accept.max, Ghost(all.take(2)));
    assert(all.take(3) =~= all.take(2).push(all[2]));
    append_field(&mut line, &coins.mean, Ghost(all.take(3)));
    assert(all.take(4) =~= all.take(3).push(all[3]));
    append_field(&mut line, &coins.standard_deviation, Ghost(all.take(4)));
    assert(all.take(5) =~= all.take(4).push(all[4]));
    append_field(&mut line, &coins.max, Ghost(all.take(5)));
    assert(all =~= all.take(5).push(all[5]));
    proof {
        law_a_report_is_written_out(*accept, *coins);
    }
    line
}

/// How many commas a text has.
pub open spec fn commas(text: Seq<char>) -> nat {
    text.filter(|c: char| c == ',').len()
}

proof fn lemma_no_commas(text: Seq<char>)
    requires
        !text.contains(','),
    ensures
        commas(text) == 0,
{
    let comma = |c: char| c == ',';
    if commas(text) > 0 {
        let found = text.filter(comma);
        assert(found.contains(found[0]));
        crate::sequences::lemma_filter_members(text, comma, found[0]);
    }
}

proof fn lemma_commas_of_fields(fields: Seq<Seq<char>>)
    requires
        fields.len() > 0,
        forall|i: int| 0 <= i < fields.len() ==> !(#[trigger] fields[i]).contains(','),
    ensures
        commas(comma_separated(fields)) == fields.len() - 1,
    decreases fields.len(),
{
    let comma = |c: char| c == ',';
    if fields.len() == 1 {
        lemma_no_commas(fields[0]);
    } else {
        let rest = fields.drop_last();
        assert forall|i: int| 0 <= i < rest.len() implies !(#[trigger] rest[i]).contains(',') by {
            assert(rest[i] == fields[i]);
        }
        lemma_commas_of_fields(rest);
        lemma_no_commas(fields[fields.len() - 1]);
        let head = comma_separated(rest);
        assert(seq![','].filter(comma).len() == 1) by {
            reveal(Seq::filter);
            assert(seq![','].drop_last() =~= Seq::<char>::empty());
        }
        Seq::filter_distributes_over_add(head + seq![','], fields.last(), comma);
        Seq::filter_distributes_over_add(head, seq![','], comma);
    }
}

/// A report has six columns, as long as no number is written with a comma.
pub proof fn law_a_report_has_six_columns(accept: LatencySummary, coins: LatencySummary)
    requires
        forall|i: int|
            0 <= i < 6 ==> !(#[trigger] report_fields(accept, coins)[i]).contains(','),
    ensures
        commas(comma_separated(report_fields(accept, coins))) == 5,
{
    lemma_commas_of_fields(report_fields(accept, coins));
}

/// Every further field follows the line after a comma.
pub proof fn law_fields_are_appended(fields: Seq<Seq<char>>, field: Seq<char>)
    ensures
        comma_separated(seq![field]) == field,
        fields.len() > 0 ==> comma_separated(fields.push(field)) == comma_separated(fields) + seq![
            ',',
        ] + field,
{
    assert(fields.push(field).drop_last() =~= fields);
}

/// A report is the three numbers of the time until acceptance and then those of the time until the
/// tokens are received, in full and with nothing but commas between them.
pub proof fn law_a_report_is_written_out(accept: LatencySummary, coins: LatencySummary)
    ensures
        comma_separated(report_fields(accept, coins)) == accept.mean@ + seq![',']
            + accept.standard_deviation@ + seq![','] + accept.max@ + seq![','] + coins.mean@ + seq![
            ',',
        ] + coins.standard_deviation@ + seq![','] + coins.max@,
{
    let all = report_fields(accept, coins);
    law_fields_are_appended(Seq::empty(), accept.mean@);
    assert(all.take(1) =~= seq![accept.mean@]);
    law_fields_are_appended(all.take(1), all[1]);
    assert(all.take(2) =~= all.take(1).push(all[1]));
    law_fields_are_appended(all.take(2), all[2]);
    assert(all.take(3) =~= all.take(2).push(all[2]));
    law_fields_are_appended(all.take(3), all[3]);
    assert(all.take(4) =~= all.take(3).push(all[3]));
    law_fields_are_appended(all.take(4), all[4]);
    assert(all.take(5) =~= all.take(4).push(all[4]));
    law_fields_are_appended(all.take(5), all[5]);
    assert(all =~= all.take(5).push(all[5]));
}

} // verus!
