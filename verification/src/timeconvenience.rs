//! Convenience spellings for the time cursors the source accepts: either
//! a relative amount with a unit suffix, or an absolute epoch value.

use vstd::prelude::*;

use crate::strutil::{dec_str, push_char, u32_to_string, u64_to_string};

verus! {

/// A point or span of time as the source's query strings spell it.
#[derive(Debug, Copy, Clone, Hash)]
pub enum TimeConvenience {
    Seconds(u32),
    Minutes(u32),
    Hours(u32),
    Days(u32),
    Weeks(u32),
    Years(u32),
    UTC(u64),
}

impl TimeConvenience {
    /// The query-string value: digits with a unit suffix, or bare digits
    /// for an absolute epoch time.
    pub open spec fn as_str_spec(self) -> Seq<char> {
        match self {
            TimeConvenience::Seconds(time) => dec_str(time as u64).push('s'),
            TimeConvenience::Minutes(time) => dec_str(time as u64).push('m'),
            TimeConvenience::Hours(time) => dec_str(time as u64).push('h'),
            TimeConvenience::Days(time) => dec_str(time as u64).push('d'),
            TimeConvenience::Weeks(time) => dec_str(time as u64).push('w'),
            TimeConvenience::Years(time) => dec_str(time as u64).push('y'),
            TimeConvenience::UTC(time) => dec_str(time),
        }
    }

    /// Renders the time as a query-string value.
    pub fn as_query_value(&self) -> (r: String)
        ensures
            r@ == self.as_str_spec(),
    {
        match self {
            TimeConvenience::Seconds(time) => {
                let mut s = u32_to_string(*time);
                push_char(&mut s, 's');
                s
            },
            TimeConvenience::Minutes(time) => {
                let mut s = u32_to_string(*time);
                push_char(&mut s, 'm');
                s
            },
            TimeConvenience::Hours(time) => {
                let mut s = u32_to_string(*time);
                push_char(&mut s, 'h');
                s
            },
            TimeConvenience::Days(time) => {
                let mut s = u32_to_string(*time);
                push_char(&mut s, 'd');
                s
            },
            TimeConvenience::Weeks(time) => {
                let mut s = u32_to_string(*time);
                push_char(&mut s, 'w');
                s
            },
            TimeConvenience::Years(time) => {
                let mut s = u32_to_string(*time);
                push_char(&mut s, 'y');
                s
            },
            TimeConvenience::UTC(time) => u64_to_string(*time),
        }
    }
}

} // verus!
