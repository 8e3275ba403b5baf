//! An interpreter for a small tape language of eight primitive operations
//! and an optional fork: a lexer, a bracket-matching parser, a peephole
//! optimiser, width-generic memory and a step-by-step executor whose outside
//! work (printing, reading, running forks) is left to the caller.
mod args;
mod error;
mod instruction;
mod machine;
mod memory;
mod optimise;
mod semantics;
mod text;
mod token;

pub use args::Args;
pub use error::{message_colour, message_part, message_text, shows_message, Error};
pub use instruction::{
    balanced, depth_change, lemma_nodes_drop_last, lemma_unparse_balanced, lemma_unparse_injective, lemma_nodes_index, lemma_nodes_push,
    nesting_step, never_below, node, nodes, parse, plain, unmatched_close_at,
    unmatched_open_from, unparse, well_bracketed, Edit, Instruction, Move, Node,
};
pub use machine::{
    apply, edit_cell, fresh_frame, is_cell_op, moved, next, run_wf, scope, shows, Action, Effect,
    Frame, Machine, Run,
};
pub use memory::{
    added, fresh_tape, lemma_cell_bounds, lemma_pointer_bounds, moved_left, moved_right,
    policy_of, read_into, record_text, shows_char, shows_record, stored, subtracted, tape_wf,
    with_cell, with_pointer, Input, Memory, Memory16, Memory32, Memory8, Policy, Tape,
};
pub use optimise::{
    close_loop, counts_fit, edit_count, edit_total, first_pass, fuse, lemma_optimise_idempotent,
    lemma_plain_counts, merge_edits, merge_moves, merged, move_count, move_total, node_edits,
    node_moves, optimise, optimised, pair, reverses, second_pass, settled, stable_loop,
    stable_pair,
};
pub use semantics::{
    agrees, drive, drive_step, edit_amount, eval, eval_node, lemma_optimise_preserves_runs,
    lemma_eval_follows_steps, lemma_optimised_steps_alike, lemma_steps_follow_eval, move_amount, moved_on, runnable,
    runnable_node, rest, rest_of, start, steady, top_frame, top_list, trace_of, with_tape, wraps_everywhere, Drive, Trace,
};
pub use text::{
    decimal, digit, escape_free, green_code, holds_reset, is_scalar, painted, reset_code,
    yellow_code,
};
pub use token::{lemma_lex_concat, lex, lex_chars, token_of, Token};
