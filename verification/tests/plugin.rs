use amba::plugin::{NodeMetadata, State};

fn block(state: u32, vaddr: u64, generation: u64) -> NodeMetadata {
    NodeMetadata { symbolic_state_id: state, basic_block_vaddr: Some(vaddr), basic_block_generation: Some(generation) }
}

fn state(id: u32) -> NodeMetadata {
    NodeMetadata { symbolic_state_id: id, basic_block_vaddr: None, basic_block_generation: None }
}

#[test]
fn plugin_first_block_of_state_zero_is_only_recorded() {
    let mut s = State::new();
    assert_eq!(s.on_watched_block_start_execute(0, 0x1000), None);
    assert_eq!(s.symbolic_state_to_last_executed_basic_block_state_and_vaddr, vec![block(0, 0x1000, 1)]);
}

#[test]
fn plugin_blocks_forks_and_merges() {
    let mut s = State::new();
    s.on_watched_block_start_execute(0, 0x1000);
    s.on_translate_block(0, 0x2000);
    s.on_translate_block(0, 0x2000);
    assert_eq!(s.on_watched_block_start_execute(0, 0x2000), Some((block(0, 0x1000, 1), block(0, 0x2000, 2))));

    // Alias 0 is reused by the first new state, alias 1 is new.
    let edges = s.on_state_fork(0, &[0, 1]);
    assert_eq!(edges, vec![(state(0), state(1)), (state(0), state(2))]);
    assert_eq!(s.symbolic_state_alias_to_id, vec![1, 2]);
    assert_eq!(s.symbolic_state_id_count, 3);
    assert_eq!(s.state_predecessor, vec![u32::MAX, 0, 0]);
    assert_eq!(
        s.symbolic_state_to_last_executed_basic_block_state_and_vaddr,
        vec![block(0, 0x2000, 2), block(0, 0x2000, 2), block(0, 0x2000, 2)]
    );

    // State 2 finds the generation of 0x2000 in state 0, where it forked from.
    assert_eq!(s.on_watched_block_start_execute(1, 0x2000), Some((block(0, 0x2000, 2), block(2, 0x2000, 2))));
    // A translation in state 2 now counts on from the generation it shares.
    s.on_translate_block(1, 0x2000);
    assert_eq!(s.on_watched_block_start_execute(1, 0x2000), Some((block(2, 0x2000, 2), block(2, 0x2000, 3))));
    // State 1 still sees generation 2 from state 0.
    assert_eq!(s.on_watched_block_start_execute(0, 0x2000), Some((block(0, 0x2000, 2), block(1, 0x2000, 2))));

    assert_eq!(s.on_state_merge(0, 1), (state(2), state(1)));
}
