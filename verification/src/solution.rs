//! The result of one solve call: counters, timing and the move path.

use vstd::prelude::*;

use crate::direction::Dir;

verus! {

/// What a solve call reports: states visited and expanded, the depth the
/// goal was found at (`-1` when none was), the solution length, the wall
/// clock spent in microseconds, and the ordered moves from start to goal.
#[derive(Debug)]
pub struct Solution {
    pub visited_count: usize,
    pub processed_count: usize,
    pub reached_depth: i16,
    pub result_len: u8,
    pub duration_micros: u64,
    pub path: Vec<Dir>,
}

impl Solution {
    /// Combines two results for batch reporting: the numeric fields add
    /// up and the path is discarded.
    pub fn add(self, other: Solution) -> (r: Solution)
        requires
            self.visited_count + other.visited_count <= usize::MAX,
            self.processed_count + other.processed_count <= usize::MAX,
            i16::MIN <= self.reached_depth + other.reached_depth <= i16::MAX,
            self.result_len + other.result_len <= u8::MAX,
            self.duration_micros + other.duration_micros <= u64::MAX,
        ensures
            r.visited_count == self.visited_count + other.visited_count,
            r.processed_count == self.processed_count + other.processed_count,
            r.reached_depth == self.reached_depth + other.reached_depth,
            r.result_len == self.result_len + other.result_len,
            r.duration_micros == self.duration_micros + other.duration_micros,
            r.path@.len() == 0,
    {
        Solution {
            visited_count: self.visited_count + other.visited_count,
            processed_count: self.processed_count + other.processed_count,
            reached_depth: self.reached_depth + other.reached_depth,
            result_len: self.result_len + other.result_len,
            duration_micros: self.duration_micros + other.duration_micros,
            path: Vec::new(),
        }
    }
}

impl Clone for Solution {
    /// Duplicates the numeric fields; the path is not carried along, as
    /// combined results never keep one.
    fn clone(&self) -> (r: Self)
        ensures
            r.visited_count == self.visited_count,
            r.processed_count == self.processed_count,
            r.reached_depth == self.reached_depth,
            r.result_len == self.result_len,
            r.duration_micros == self.duration_micros,
            r.path@.len() == 0,
    {
        Solution {
            visited_count: self.visited_count,
            processed_count: self.processed_count,
            reached_depth: self.reached_depth,
            result_len: self.result_len,
            duration_micros: self.duration_micros,
            path: Vec::new(),
        }
    }
}

} // verus!
