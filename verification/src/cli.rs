//! Decisions of the command line front end: the `--format` option, the
//! rows of the `summary` command and the exit status of `compare`.
use vstd::prelude::*;
use crate::compare::{
    DiffRow, DiffRowView, RowOrder, rows_view, sort_rows, is_permutation_of, stably_sorted,
    no_nan_changes,
};
use crate::error::{Error, ErrorView};
use crate::parsers::{Format, format_parse_spec};
use crate::text::{chars_of, eq_lit};

verus! {

pub open spec fn parse_format_spec(opt: Option<Seq<char>>) -> Result<Option<Format>, ErrorView> {
    match opt {
        None => Ok(None),
        Some(s) => if s == "auto"@ {
            Ok(None)
        } else {
            match format_parse_spec(s) {
                Ok(f) => Ok(Some(f)),
                Err(e) => Err(e),
            }
        },
    }
}

/// The `--format` option: absent or exactly `auto` means auto-detection,
/// anything else must name a format (see [`Format::parse`]).
pub fn parse_format(opt: Option<&str>) -> (r: Result<Option<Format>, Error>)
    ensures
        match parse_format_spec(
            match opt {
                Some(s) => Some(s@),
                None => None,
            },
        ) {
            Ok(f) => r == Ok::<Option<Format>, Error>(f),
            Err(e) => r matches Err(err) && err@ == e,
        },
{
    match opt {
        None => Ok(None),
        Some(s) => {
            if eq_lit(&chars_of(s), "auto") {
                Ok(None)
            } else {
                match Format::parse(s) {
                    Ok(f) => Ok(Some(f)),
                    Err(e) => Err(e),
                }
            }
        },
    }
}

/// The rows of the `summary` command: the report's rows ordered by absolute
/// relative change, largest first (ties keep their order), cut to `top`.
pub fn top_changes(rows: Vec<DiffRow>, top: usize) -> (r: Vec<DiffRow>)
    ensures
        r@.len() == if rows@.len() < top {
            rows@.len()
        } else {
            top as nat
        },
        exists|perm: Seq<int>, sorted: Seq<DiffRowView>| #![trigger is_permutation_of(sorted, rows_view(rows@), perm)] {
            &&& is_permutation_of(sorted, rows_view(rows@), perm)
            &&& no_nan_changes(rows_view(rows@)) ==> stably_sorted(RowOrder::Change, sorted, perm)
            &&& rows_view(r@) == sorted.take(r@.len() as int)
        },
{
    let ghost input = rows_view(rows@);
    let mut sorted = sort_rows(rows, RowOrder::Change);
    let ghost all = rows_view(sorted@);
    proof {
        let perm = choose|perm: Seq<int>| #![trigger is_permutation_of(all, input, perm)] {
            &&& is_permutation_of(all, input, perm)
            &&& no_nan_changes(input) ==> stably_sorted(RowOrder::Change, all, perm)
        };
        assert(is_permutation_of(all, input, perm));
    }
    sorted.truncate(top);
    proof {
        assert(rows_view(sorted@) =~= all.take(sorted@.len() as int));
    }
    sorted
}

/// The exit status of `compare`: `1` when the number of regressions, taken
/// as a `u32`, exceeds the number allowed, `0` otherwise.
pub fn compare_exit_code(regressions: usize, allowed: u32) -> (r: i32)
    ensures
        r == if (regressions as u32) > allowed {
            1i32
        } else {
            0i32
        },
{
    let regs = regressions as u32;
    if regs > allowed {
        1
    } else {
        0
    }
}

} // verus!
