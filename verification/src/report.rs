//! The text of a report: one line per peer and metric.

use vstd::prelude::*;
use vstd::string::StringExecFns;
use crate::estimator::{durations_error_with_ci, durations_mean, error_of, mean_of};

verus! {

/// How the standard library writes a string with `{:?}`: quoted, with
/// escapes.
pub uninterp spec fn quoted_text(text: Seq<char>) -> Seq<char>;

/// How the standard library writes a duration of that many nanoseconds with
/// `{:?}`.
pub uninterp spec fn duration_text(nanos: u64) -> Seq<char>;

/// The `Debug` form of a string, as `format!` gives it.
#[verifier::external_body]
fn quote(text: &String) -> (quoted: String)
    ensures
        quoted@ == quoted_text(text@),
{
    format!("{:?}", text)
}

/// The `Debug` form of `std::time::Duration::from_nanos(nanos)`, as
/// `format!` gives it.
#[verifier::external_body]
fn show_duration(nanos: u64) -> (shown: String)
    ensures
        shown@ == duration_text(nanos),
{
    format!("{:?}", std::time::Duration::from_nanos(nanos))
}

/// The line for one peer. A peer without samples gets a line that says so;
/// any other peer gets its mean and margin of error. Lines of the
/// transmission section are marked as rates per byte.
pub open spec fn line_text(peer: Seq<char>, samples: Seq<u64>, per_byte: bool) -> Seq<char> {
    if samples.len() == 0 {
        if per_byte {
            "No transmission data for peer "@ + quoted_text(peer) + "\n"@
        } else {
            "No ping data for peer "@ + quoted_text(peer) + "\n"@
        }
    } else {
        let figures = quoted_text(peer) + " "@ + duration_text(mean_of(samples) as u64) + "±"@
            + duration_text(error_of(samples) as u64);
        if per_byte {
            figures + " per byte\n"@
        } else {
            figures + "\n"@
        }
    }
}

/// The lines of one section, in the order of the listing.
pub open spec fn section_text(entries: Seq<(String, Vec<u64>)>, per_byte: bool) -> Seq<char>
    decreases entries.len(),
{
    if entries.len() == 0 {
        Seq::empty()
    } else {
        section_text(entries.drop_last(), per_byte) + line_text(
            entries.last().0@,
            entries.last().1@,
            per_byte,
        )
    }
}

/// The whole report: the node's own identifier, then the ping section, then
/// the transmission section.
pub open spec fn report_text(
    node: Seq<char>,
    pings: Seq<(String, Vec<u64>)>,
    transmissions: Seq<(String, Vec<u64>)>,
) -> Seq<char> {
    quoted_text(node) + "\nPing mean for each peer:\n"@ + section_text(pings, false)
        + "Transmission rate mean by peer:\n"@ + section_text(transmissions, true)
}

/// Renders the line for one peer.
pub fn render_line(peer: &String, samples: &Vec<u64>, per_byte: bool) -> (line: String)
    ensures
        line@ == line_text(peer@, samples@, per_byte),
{
    let name = quote(peer);
    match (durations_mean(samples), durations_error_with_ci(samples)) {
        (Some(mean), Some(error)) => {
            let mut line = name;
            line.append(" ");
            line.append(show_duration(mean).as_str());
            line.append("±");
            line.append(show_duration(error).as_str());
            if per_byte {
                line.append(" per byte\n");
            } else {
                line.append("\n");
            }
            line
        },
        _ => {
            let mut line = String::from_str(
                if per_byte {
                    "No transmission data for peer "
                } else {
                    "No ping data for peer "
                },
            );
            line.append(name.as_str());
            line.append("\n");
            line
        },
    }
}

/// Renders the lines of one section.
pub fn render_section(entries: &Vec<(String, Vec<u64>)>, per_byte: bool) -> (text: String)
    ensures
        text@ == section_text(entries@, per_byte),
{
    let mut text = String::new();
    let mut i: usize = 0;
    while i < entries.len()
        invariant
            i <= entries@.len(),
            text@ == section_text(entries@.take(i as int), per_byte),
        decreases entries@.len() - i,
    {
        proof {
            assert(entries@.take(i + 1).drop_last() =~= entries@.take(i as int));
        }
        let line = render_line(&entries[i].0, &entries[i].1, per_byte);
        text.append(line.as_str());
        i = i + 1;
    }
    proof {
        assert(entries@.take(i as int) =~= entries@);
    }
    text
}

/// Renders the report of a node from a listing of each of its two tables.
pub fn render_report(
    node: &String,
    pings: &Vec<(String, Vec<u64>)>,
    transmissions: &Vec<(String, Vec<u64>)>,
) -> (text: String)
    ensures
        text@ == report_text(node@, pings@, transmissions@),
{
    let mut text = quote(node);
    text.append("\nPing mean for each peer:\n");
    text.append(render_section(pings, false).as_str());
    text.append("Transmission rate mean by peer:\n");
    text.append(render_section(transmissions, true).as_str());
    text
}

} // verus!
