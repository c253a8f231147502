use vstd::prelude::*;
use vstd::string::StringExecFns;

use crate::config::{decimal_string, decimal_text};
use crate::text::views;
use crate::values::SortOrder;

verus! {

fn text(s: &str) -> (r: String)
    ensures
        r@ == s@,
{
    String::from_str(s)
}

/// `SCAN cursor MATCH pattern COUNT count`.
pub fn scan_command(cursor: u64, pattern: &str, count: u64) -> (r: Vec<String>)
    ensures
        views(r@) == seq![
            "SCAN"@,
            decimal_text(cursor as nat),
            "MATCH"@,
            pattern@,
            "COUNT"@,
            decimal_text(count as nat),
        ],
{
    let r = vec![
        text("SCAN"),
        decimal_string(cursor),
        text("MATCH"),
        text(pattern),
        text("COUNT"),
        decimal_string(count),
    ];
    assert(views(r@) =~= seq![
        "SCAN"@,
        decimal_text(cursor as nat),
        "MATCH"@,
        pattern@,
        "COUNT"@,
        decimal_text(count as nat),
    ]);
    r
}

/// The per-type scan commands over the entries of one key.
#[derive(Debug, Clone, Copy, PartialEq, Eq, Structural)]
pub enum EntryScan {
    Hash,
    Members,
    Sorted,
}

pub open spec fn entry_scan_name(kind: EntryScan) -> Seq<char> {
    match kind {
        EntryScan::Hash => "HSCAN"@,
        EntryScan::Members => "SSCAN"@,
        EntryScan::Sorted => "ZSCAN"@,
    }
}

/// `HSCAN|SSCAN|ZSCAN key cursor MATCH pattern COUNT count`.
pub fn entry_scan_command(kind: EntryScan, key: &str, cursor: u64, pattern: &str, count: u64) -> (r: Vec<
    String,
>)
    ensures
        views(r@) == seq![
            entry_scan_name(kind),
            key@,
            decimal_text(cursor as nat),
            "MATCH"@,
            pattern@,
            "COUNT"@,
            decimal_text(count as nat),
        ],
{
    let name = match kind {
        EntryScan::Hash => text("HSCAN"),
        EntryScan::Members => text("SSCAN"),
        EntryScan::Sorted => text("ZSCAN"),
    };
    let r = vec![
        name,
        text(key),
        decimal_string(cursor),
        text("MATCH"),
        text(pattern),
        text("COUNT"),
        decimal_string(count),
    ];
    assert(views(r@) =~= seq![
        entry_scan_name(kind),
        key@,
        decimal_text(cursor as nat),
        "MATCH"@,
        pattern@,
        "COUNT"@,
        decimal_text(count as nat),
    ]);
    r
}

/// `LRANGE key start stop` (both ends included).
pub fn list_range_command(key: &str, start: usize, stop: usize) -> (r: Vec<String>)
    ensures
        views(r@) == seq!["LRANGE"@, key@, decimal_text(start as nat), decimal_text(stop as nat)],
{
    let r = vec![text("LRANGE"), text(key), decimal_string(start as u64), decimal_string(stop as u64)];
    assert(views(r@) =~= seq![
        "LRANGE"@,
        key@,
        decimal_text(start as nat),
        decimal_text(stop as nat),
    ]);
    r
}

/// `ZRANGE` (ascending) or `ZREVRANGE` (descending) `key start stop WITHSCORES`.
pub fn zset_range_command(key: &str, order: SortOrder, start: usize, stop: usize) -> (r: Vec<String>)
    ensures
        views(r@) == seq![
            match order {
                SortOrder::Asc => "ZRANGE"@,
                SortOrder::Desc => "ZREVRANGE"@,
            },
            key@,
            decimal_text(start as nat),
            decimal_text(stop as nat),
            "WITHSCORES"@,
        ],
{
    let name = match order {
        SortOrder::Asc => text("ZRANGE"),
        SortOrder::Desc => text("ZREVRANGE"),
    };
    let r = vec![
        name,
        text(key),
        decimal_string(start as u64),
        decimal_string(stop as u64),
        text("WITHSCORES"),
    ];
    assert(views(r@) =~= seq![
        match order {
            SortOrder::Asc => "ZRANGE"@,
            SortOrder::Desc => "ZREVRANGE"@,
        },
        key@,
        decimal_text(start as nat),
        decimal_text(stop as nat),
        "WITHSCORES"@,
    ]);
    r
}

/// `AUTH [username] password`: the user name only for access-list logins.
pub fn auth_command(username: Option<&str>, password: &str) -> (r: Vec<String>)
    ensures
        views(r@) == match username {
            Some(u) => seq!["AUTH"@, u@, password@],
            None => seq!["AUTH"@, password@],
        },
{
    let mut r = vec![text("AUTH")];
    if let Some(u) = username {
        r.push(text(u));
    }
    r.push(text(password));
    assert(views(r@) =~= match username {
        Some(u) => seq!["AUTH"@, u@, password@],
        None => seq!["AUTH"@, password@],
    });
    r
}

} // verus!
