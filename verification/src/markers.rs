//! Fixed text of the managed-block format.
use vstd::prelude::*;

verus! {

/// Start of a managed block's open line.
pub open spec fn k_open_head() -> Seq<char> {
    seq!['#', ' ', '>', '>', '>', ' ', 'j', 't', 'r', ':']
}

pub fn k_open_head_exec() -> (v: Vec<char>)
    ensures
        v@ == k_open_head(),
{
    vec!['#', ' ', '>', '>', '>', ' ', 'j', 't', 'r', ':']
}

/// End of a managed block's open line.
pub open spec fn k_open_tail() -> Seq<char> {
    seq![' ', '>', '>', '>']
}

pub fn k_open_tail_exec() -> (v: Vec<char>)
    ensures
        v@ == k_open_tail(),
{
    vec![' ', '>', '>', '>']
}

/// Start of a managed block's close line.
pub open spec fn k_close_head() -> Seq<char> {
    seq!['#', ' ', '<', '<', '<', ' ', 'j', 't', 'r', ':']
}

pub fn k_close_head_exec() -> (v: Vec<char>)
    ensures
        v@ == k_close_head(),
{
    vec!['#', ' ', '<', '<', '<', ' ', 'j', 't', 'r', ':']
}

/// End of a managed block's close line.
pub open spec fn k_close_tail() -> Seq<char> {
    seq![' ', '<', '<', '<']
}

pub fn k_close_tail_exec() -> (v: Vec<char>)
    ensures
        v@ == k_close_tail(),
{
    vec![' ', '<', '<', '<']
}

/// Header line that records where a block came from.
pub open spec fn k_source_line() -> Seq<char> {
    seq!['#', ' ', 's', 'o', 'u', 'r', 'c', 'e', ':', ' ']
}

pub fn k_source_line_exec() -> (v: Vec<char>)
    ensures
        v@ == k_source_line(),
{
    vec!['#', ' ', 's', 'o', 'u', 'r', 'c', 'e', ':', ' ']
}

/// Header line that records a pin.
pub open spec fn k_pinned_line() -> Seq<char> {
    seq!['#', ' ', 'p', 'i', 'n', 'n', 'e', 'd', ':', ' ']
}

pub fn k_pinned_line_exec() -> (v: Vec<char>)
    ensures
        v@ == k_pinned_line(),
{
    vec!['#', ' ', 'p', 'i', 'n', 'n', 'e', 'd', ':', ' ']
}

/// Header line that records dependencies.
pub open spec fn k_depends_line() -> Seq<char> {
    seq!['#', ' ', 'd', 'e', 'p', 'e', 'n', 'd', 's', '-', 'o', 'n', ':', ' ']
}

pub fn k_depends_line_exec() -> (v: Vec<char>)
    ensures
        v@ == k_depends_line(),
{
    vec!['#', ' ', 'd', 'e', 'p', 'e', 'n', 'd', 's', '-', 'o', 'n', ':', ' ']
}

/// First part of the do-not-edit header line.
pub open spec fn k_dne_head() -> Seq<char> {
    seq!['#', ' ', 'd', 'o', ' ', 'n', 'o', 't', ' ', 'e', 'd', 'i', 't', ' ', 'm', 'a', 'n', 'u', 'a', 'l', 'l', 'y', ';', ' ', 'u', 's', 'e', ' ', '`', 'j', 't', 'r', ' ', 'u', 'p', 'd', 'a', 't', 'e', ' ']
}

pub fn k_dne_head_exec() -> (v: Vec<char>)
    ensures
        v@ == k_dne_head(),
{
    vec!['#', ' ', 'd', 'o', ' ', 'n', 'o', 't', ' ', 'e', 'd', 'i', 't', ' ', 'm', 'a', 'n', 'u', 'a', 'l', 'l', 'y', ';', ' ', 'u', 's', 'e', ' ', '`', 'j', 't', 'r', ' ', 'u', 'p', 'd', 'a', 't', 'e', ' ']
}

/// Middle of the do-not-edit header line.
pub open spec fn k_dne_mid() -> Seq<char> {
    seq!['`', ' ', 'o', 'r', ' ', '`', 'j', 't', 'r', ' ', 'r', 'e', 'm', 'o', 'v', 'e', ' ']
}

pub fn k_dne_mid_exec() -> (v: Vec<char>)
    ensures
        v@ == k_dne_mid(),
{
    vec!['`', ' ', 'o', 'r', ' ', '`', 'j', 't', 'r', ' ', 'r', 'e', 'm', 'o', 'v', 'e', ' ']
}

/// End of the do-not-edit header line.
pub open spec fn k_dne_tail() -> Seq<char> {
    seq!['`']
}

pub fn k_dne_tail_exec() -> (v: Vec<char>)
    ensures
        v@ == k_dne_tail(),
{
    vec!['`']
}

/// Separator of the dependency list.
pub open spec fn k_list_sep() -> Seq<char> {
    seq![',', ' ']
}

pub fn k_list_sep_exec() -> (v: Vec<char>)
    ensures
        v@ == k_list_sep(),
{
    vec![',', ' ']
}

/// Prefix that marks a source header line when parsing.
pub open spec fn k_source_key() -> Seq<char> {
    seq!['#', ' ', 's', 'o', 'u', 'r', 'c', 'e', ':']
}

pub fn k_source_key_exec() -> (v: Vec<char>)
    ensures
        v@ == k_source_key(),
{
    vec!['#', ' ', 's', 'o', 'u', 'r', 'c', 'e', ':']
}

/// Prefix that marks a pin header line when parsing.
pub open spec fn k_pinned_key() -> Seq<char> {
    seq!['#', ' ', 'p', 'i', 'n', 'n', 'e', 'd', ':']
}

pub fn k_pinned_key_exec() -> (v: Vec<char>)
    ensures
        v@ == k_pinned_key(),
{
    vec!['#', ' ', 'p', 'i', 'n', 'n', 'e', 'd', ':']
}

/// Prefix that marks a dependency header line when parsing.
pub open spec fn k_depends_key() -> Seq<char> {
    seq!['#', ' ', 'd', 'e', 'p', 'e', 'n', 'd', 's', '-', 'o', 'n', ':']
}

pub fn k_depends_key_exec() -> (v: Vec<char>)
    ensures
        v@ == k_depends_key(),
{
    vec!['#', ' ', 'd', 'e', 'p', 'e', 'n', 'd', 's', '-', 'o', 'n', ':']
}

/// Prefix that marks the do-not-edit header line when parsing.
pub open spec fn k_dne_key() -> Seq<char> {
    seq!['#', ' ', 'd', 'o', ' ', 'n', 'o', 't', ' ', 'e', 'd', 'i', 't']
}

pub fn k_dne_key_exec() -> (v: Vec<char>)
    ensures
        v@ == k_dne_key(),
{
    vec!['#', ' ', 'd', 'o', ' ', 'n', 'o', 't', ' ', 'e', 'd', 'i', 't']
}

/// The top-level key of a Taskfile's task map.
pub open spec fn k_tasks_key() -> Seq<char> {
    seq!['t', 'a', 's', 'k', 's', ':']
}

pub fn k_tasks_key_exec() -> (v: Vec<char>)
    ensures
        v@ == k_tasks_key(),
{
    vec!['t', 'a', 's', 'k', 's', ':']
}

} // verus!
