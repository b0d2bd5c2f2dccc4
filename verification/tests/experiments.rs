use tiny_llm::chunks::alignment_helps;
use tiny_llm::chunks::check_chunks;
use tiny_llm::chunks::cut;
use tiny_llm::chunks::rebuild;
use tiny_llm::dist::assemble_columns;
use tiny_llm::dist::columns_covered;
use tiny_llm::dist::ranges_covered;
use tiny_llm::dist::shard;
use tiny_llm::margins::advantage_moments;
use tiny_llm::margins::all_zero;
use tiny_llm::margins::distance_ratio;
use tiny_llm::margins::in_pairs;
use tiny_llm::margins::is_normalised;
use tiny_llm::margins::judge_reward;
use tiny_llm::margins::mean_margin;
use tiny_llm::margins::pair_sets;
use tiny_llm::margins::pairs_at;
use tiny_llm::margins::same_numbers;
use tiny_llm::margins::sweep_distances;
use tiny_llm::margins::total_margin;
use tiny_llm::margins::PolicyFault;
use tiny_llm::margins::PolicyRun;
use tiny_llm::margins::RewardFault;
use tiny_llm::plans::comparison_schedule;
use tiny_llm::prefs::check_vocab;
use tiny_llm::prefs::AlignFault;
use tiny_llm::replicas::assemble_rows;
use tiny_llm::replicas::check_replicas;
use tiny_llm::replicas::first_departure;
use tiny_llm::replicas::placed_biases;
use tiny_llm::replicas::seams_meet;
use tiny_llm::replicas::state_spread;
use tiny_llm::replicas::RankPlan;
use tiny_llm::replicas::ReplicaFault;
use tiny_llm::replicas::StateSpread;
use tiny_llm::retrieval::all_silent;
use tiny_llm::retrieval::check_prompts;
use tiny_llm::retrieval::document_frequency;
use tiny_llm::retrieval::is_unit_length;
use tiny_llm::retrieval::live_dims;
use tiny_llm::retrieval::repeats;
use tiny_llm::retrieval::Hit;
use tiny_llm::retrieval::PromptFault;
use tiny_llm::retrieval::PromptUse;
use tiny_llm::retrieval::SearchFault;
use tiny_llm::retrieval::Searches;
use tiny_llm::scan_table::scan_table;
use tiny_llm::scan_table::ScanPoint;
use tiny_llm::shares::even_columns;
use tiny_llm::shares::even_ranges;
use tiny_llm::trials::check_sweep;
use tiny_llm::trials::head_batch;
use tiny_llm::trials::tally;
use tiny_llm::trials::SweepFault;

fn bits(v: &[f32]) -> Vec<u32> {
    v.iter().map(|x| x.to_bits()).collect()
}

fn floats(v: &[u32]) -> Vec<f32> {
    v.iter().map(|x| f32::from_bits(*x)).collect()
}

fn one(x: f32) -> u32 {
    x.to_bits()
}

#[test]
fn biases_depend_on_their_place() {
    let (hidden, output) = placed_biases(6, 3);
    let want: Vec<f32> = (0..6).map(|i| 0.03 + 0.01 * i as f32).collect();
    assert_eq!(floats(&hidden), want);
    let want: Vec<f32> = (0..3).map(|i| 0.05 - 0.02 * i as f32).collect();
    assert_eq!(floats(&output), want);
}

#[test]
fn rows_are_put_together_where_they_were_cut() {
    let whole = bits(&[1.0, 2.0, 3.0, 4.0, 5.0, 6.0]);
    let pieces = vec![whole[0..2].to_vec(), whole[2..6].to_vec()];
    assert_eq!(assemble_rows(&pieces), whole);
    let cols = vec![vec![0usize], vec![1, 2]];
    assert!(seams_meet(&cols, &[(0, 1), (1, 3)]));
    assert!(!seams_meet(&cols, &[(0, 2), (2, 3)]));
    assert!(!seams_meet(&cols, &[(1, 0), (1, 3)]));
    // Steps of a pipeline are cut out of the input like the shards of a batch.
    assert_eq!(shard(&whole, 2, 1), &whole[2..4]);
}

#[test]
fn columns_give_the_matrix_back() {
    let whole = bits(&[1.0, 2.0, 3.0, 4.0, 5.0, 6.0, 7.0, 8.0]);
    let cols = vec![vec![3usize, 0], vec![2, 1]];
    assert!(columns_covered(4, &cols));
    let shards: Vec<Vec<u32>> = cols
        .iter()
        .map(|list| (0..2).flat_map(|r| list.iter().map(move |c| (r, *c))).collect::<Vec<_>>())
        .map(|cells| cells.iter().map(|(r, c)| whole[r * 4 + c]).collect())
        .collect();
    assert_eq!(shards[0], bits(&[4.0, 1.0, 8.0, 5.0]));
    assert_eq!(assemble_columns(&shards, &cols, 2, 4), whole);
}

#[test]
fn shares_are_even_and_leave_nothing_out() {
    assert_eq!(even_columns(6, 3), vec![vec![0, 1], vec![2, 3], vec![4, 5]]);
    assert!(columns_covered(6, &even_columns(6, 2)));
    assert_eq!(even_columns(0, 2), vec![Vec::<usize>::new(), Vec::new()]);
    assert_eq!(even_ranges(10, 4), vec![(0, 3), (3, 6), (6, 9), (9, 10)]);
    assert_eq!(even_ranges(2, 4), vec![(0, 1), (1, 2), (2, 2), (2, 2)]);
    assert!(ranges_covered(10, &even_ranges(10, 4)));
    assert_eq!(even_ranges(usize::MAX, 1), vec![(0, usize::MAX)]);
}

#[test]
fn texts_are_cut_with_an_overlap() {
    let text = "天地玄黄宇宙洪荒";
    let pieces = cut(text, 4, 1);
    let found: Vec<(&str, usize, usize)> =
        pieces.iter().map(|p| (p.text.as_str(), p.start, p.end)).collect();
    assert_eq!(found, vec![("天地玄黄", 0, 4), ("黄宇宙洪", 3, 7), ("洪荒", 6, 8)]);
    assert!(check_chunks(&pieces, 1));
    assert_eq!(rebuild(&pieces, 1), text);
    assert_eq!(cut("abcd", 4, 3).len(), 1);
    assert!(cut("", 4, 1).is_empty());
}

fn plan(columns: &[usize], layers: (usize, usize), batch: (usize, usize)) -> RankPlan {
    RankPlan { columns: columns.to_vec(), layers, batch }
}

#[test]
fn copies_hold_the_same_parameters_and_other_data() {
    let good = [
        plan(&[0, 1], (0, 3), (0, 2)),
        plan(&[0, 1], (0, 3), (2, 4)),
        plan(&[0, 1], (0, 3), (4, 6)),
    ];
    assert_eq!(check_replicas(&good), Ok(()));
    let cols = [plan(&[0, 1], (0, 3), (0, 2)), plan(&[0, 2], (0, 3), (2, 4))];
    assert_eq!(check_replicas(&cols), Err((1, ReplicaFault::Columns)));
    let layers = [plan(&[0], (0, 3), (0, 2)), plan(&[0], (0, 3), (2, 4)), plan(&[0], (3, 6), (4, 6))];
    assert_eq!(check_replicas(&layers), Err((2, ReplicaFault::Layers)));
    let batch = [plan(&[0], (0, 3), (0, 2)), plan(&[0], (0, 3), (0, 2))];
    assert_eq!(check_replicas(&batch), Err((1, ReplicaFault::Batch)));
    assert_eq!(check_replicas(&[]), Ok(()));
}

#[test]
fn the_first_departing_step_is_found() {
    let a = bits(&[1.0, 0.5, 0.25]);
    let b = bits(&[1.0, 0.500001, 0.26]);
    assert_eq!(first_departure(&a, &a, one(1e-5)), None);
    assert_eq!(first_departure(&a, &b, one(1e-5)), Some(2));
    assert_eq!(first_departure(&bits(&[f32::NAN]), &bits(&[1.0]), one(1e-5)), Some(0));
}

#[test]
fn states_are_summed_up() {
    let s = state_spread(&[24, 16, 24]);
    assert_eq!(s, StateSpread { least: 16, most: 24, total: 64 });
    assert_eq!(state_spread(&[]), StateSpread { least: 0, most: 0, total: 0 });
}

#[test]
fn pairs_are_made_from_the_corpus() {
    let sets = pair_sets(&[7, 8, 9, 10, 11]).unwrap();
    let lens: Vec<usize> = sets.trained.iter().map(|p| p.chosen.len()).collect();
    assert_eq!(lens, vec![5, 7, 9]);
    let lens: Vec<usize> = sets.scored.iter().map(|p| p.rejected.len()).collect();
    assert_eq!(lens, vec![11, 13, 15]);
    assert_eq!(sets.trained[0].chosen, vec![7, 8, 7, 8, 9]);
    assert_eq!(sets.trained[0].rejected, vec![7, 8, 7, 8, 10]);
    assert_eq!(pair_sets(&[1, 2, 3]).unwrap_err(), AlignFault::ShortCorpus);
    for t in &sets.trained {
        for s in &sets.scored {
            assert!(t.chosen != s.chosen && t.rejected != s.rejected && t.chosen != s.rejected);
        }
    }
    assert_eq!(pairs_at(1, 2, 3, 4, &[0])[0].chosen, vec![3]);
    assert_eq!(check_vocab(4), Ok(()));
    assert_eq!(check_vocab(3), Err(AlignFault::SmallVocab));
}

#[test]
fn margins_are_sums_and_means() {
    let scores = in_pairs(&bits(&[2.0, 1.0, 0.5, 1.5, 3.0, 0.0]));
    assert_eq!(scores.len(), 3);
    assert_eq!(f32::from_bits(total_margin(&scores)), 3.0);
    assert_eq!(f32::from_bits(mean_margin(&scores)), 1.0);
    assert_eq!(judge_reward(one(0.1), one(0.4), one(1.0)), Ok(()));
    assert_eq!(judge_reward(one(0.4), one(0.4), one(1.0)), Err(RewardFault::Margin));
    assert_eq!(judge_reward(one(0.1), one(0.4), one(0.75)), Err(RewardFault::Ranking));
}

#[test]
fn preference_training_leaves_the_reference_alone() {
    let run = |after: f32, margin: f32, loss: f32| PolicyRun {
        reference_before: bits(&[1.0, 0.0]),
        reference_after: bits(&[after, -0.0]),
        margin_before: one(0.1),
        margin_after: one(margin),
        loss_before: one(0.69),
        loss_after: one(loss),
    };
    assert_eq!(run(1.0, 0.2, 0.5).judge(), Ok(()));
    assert_eq!(run(1.5, 0.2, 0.5).judge(), Err(PolicyFault::Reference));
    assert_eq!(run(1.0, 0.1, 0.5).judge(), Err(PolicyFault::Margin));
    assert_eq!(run(1.0, 0.2, 0.7).judge(), Err(PolicyFault::Loss));
    assert!(!same_numbers(&bits(&[f32::NAN]), &bits(&[f32::NAN])));
    assert!(!same_numbers(&bits(&[1.0]), &bits(&[1.0, 2.0])));
}

#[test]
fn advantages_are_normalised() {
    let v = bits(&[1.0, -1.0, 1.0, -1.0]);
    assert_eq!(advantage_moments(&v), (0, one(1.0)));
    assert!(is_normalised(&v));
    assert!(!is_normalised(&bits(&[1.0, -1.0, 2.0, -2.0])));
    assert!(!is_normalised(&bits(&[1.5, -0.5])));
    assert!(all_zero(&bits(&[0.0, -0.0])));
    assert!(!all_zero(&bits(&[0.0, 1e-30])));
}

#[test]
fn distances_are_swept() {
    let k3 = |d: f32| d.exp() - d - 1.0;
    let deltas = [-2.0f32, -1.0, -0.5, 0.0, 0.5, 1.0, 2.0];
    let kls: Vec<f32> = deltas.iter().map(|d| k3(*d)).collect();
    let most = sweep_distances(&bits(&kls)).unwrap();
    assert_eq!(f32::from_bits(most), k3(2.0));
    assert_eq!(sweep_distances(&bits(&[0.5, -0.25, -1.0])), Err(1));
    assert_eq!(distance_ratio(one(k3(0.0)), 0), None);
    let r = distance_ratio(one(2.0), one(-0.5)).unwrap();
    assert_eq!(f32::from_bits(r), 4.0);
}

#[test]
fn every_trial_is_counted_once() {
    let counts = tally(&[2, 0, 2, 1, 2], 4);
    assert_eq!(counts, vec![1, 1, 3, 0]);
    assert_eq!(counts.iter().sum::<usize>(), 5);
    assert_eq!(tally(&[], 2), vec![0, 0]);
}

#[test]
fn longer_proposals_take_no_more_passes() {
    assert_eq!(check_sweep(&[16, 11, 7, 7], 32), Ok(()));
    assert_eq!(check_sweep(&[16, 33], 32), Err((1, SweepFault::TooMany)));
    assert_eq!(check_sweep(&[16, 11, 12], 32), Err((2, SweepFault::Rising)));
}

#[test]
fn heads_need_one_more_token() {
    let corpus: Vec<usize> = (0..9).collect();
    assert_eq!(head_batch(&corpus, 2, 4).unwrap(), &corpus[0..8]);
    assert!(head_batch(&corpus, 3, 3).is_none());
    assert!(head_batch(&corpus, usize::MAX, usize::MAX).is_none());
}

#[test]
fn terms_are_counted_per_piece() {
    let terms = |s: &str| -> Vec<String> { s.split(' ').map(|t| t.to_string()).collect() };
    let pieces = vec![terms("a b a"), terms("b c"), terms("a")];
    assert_eq!(document_frequency(&pieces, "a"), 2);
    assert_eq!(document_frequency(&pieces, "c"), 1);
    assert_eq!(document_frequency(&pieces, "z"), 0);
    assert_eq!(live_dims(&bits(&[0.0, 1.0, -0.0, -2.0])), 2);
}

fn hits(v: &[(usize, f32)]) -> Vec<Hit> {
    v.iter().map(|(i, s)| Hit { index: *i, score: s.to_bits() }).collect()
}

#[test]
fn searches_keep_their_rules() {
    let base = || Searches {
        plain: hits(&[(4, 0.9), (1, 0.5)]),
        diverse: hits(&[(4, 0.9), (7, 0.2)]),
        turned_off: hits(&[(4, 0.9), (1, 0.5)]),
        plain_redundancy: one(0.8),
        diverse_redundancy: one(0.3),
    };
    assert_eq!(base().check(2, 10), Ok(()));
    assert_eq!(base().check(5, 2), Ok(()));
    assert_eq!(base().check(3, 10), Err(SearchFault::Count));
    let s = Searches { diverse: hits(&[(4, 0.9)]), ..base() };
    assert_eq!(s.check(2, 10), Err(SearchFault::Uneven));
    let s = Searches { plain: hits(&[(4, 0.5), (1, 0.9)]), ..base() };
    assert_eq!(s.check(2, 10), Err(SearchFault::Order));
    let s = Searches { plain: hits(&[(4, 0.0), (1, 0.0)]), ..base() };
    assert_eq!(s.check(2, 10), Err(SearchFault::Unrelated));
    let s = Searches { diverse_redundancy: one(0.9), ..base() };
    assert_eq!(s.check(2, 10), Err(SearchFault::Redundant));
    let s = Searches { turned_off: hits(&[(4, 0.9), (2, 0.5)]), ..base() };
    assert_eq!(s.check(2, 10), Err(SearchFault::Picks));
}

#[test]
fn prompts_keep_to_their_budget() {
    let u = |chunks: usize, chars: usize| PromptUse { chunks, chars };
    assert_eq!(check_prompts(u(2, 90), 100, u(3, 200), 3, u(1, 40), 40), Ok(()));
    let over = check_prompts(u(2, 101), 100, u(3, 200), 3, u(1, 40), 40);
    assert_eq!(over, Err(PromptFault::OverBudget));
    let none = check_prompts(u(0, 0), 100, u(3, 200), 3, u(1, 40), 40);
    assert_eq!(none, Err(PromptFault::Nothing));
    let left = check_prompts(u(2, 90), 100, u(2, 200), 3, u(1, 40), 40);
    assert_eq!(left, Err(PromptFault::LeftOut));
    let lost = check_prompts(u(2, 90), 100, u(3, 200), 3, u(0, 0), 40);
    assert_eq!(lost, Err(PromptFault::FirstLost));
    let long = check_prompts(u(2, 90), 100, u(3, 200), 3, u(1, 41), 40);
    assert_eq!(long, Err(PromptFault::CutTooLong));
}

fn point(label: &str, n_layer: usize, loss: &str) -> ScanPoint {
    ScanPoint {
        label: label.to_string(),
        n_layer,
        n_embd: 32,
        params: 10_240,
        params_non_embedding: 9_216,
        steps: 100,
        tokens: "51200".to_string(),
        compute: "2.831155e9".to_string(),
        loss: loss.to_string(),
    }
}

#[test]
fn scans_are_written_as_lines() {
    let params = [point("1x32", 1, "2.500000"), point("2x32", 2, "2.250000")];
    let tokens = [point("x4", 1, "2.000000")];
    let table = scan_table(&params, &tokens);
    let want = "axis,label,n_layer,n_embd,params,params_non_embedding,steps,tokens,compute_flops,loss\n\
params,1x32,1,32,10240,9216,100,51200,2.831155e9,2.500000\n\
params,2x32,2,32,10240,9216,100,51200,2.831155e9,2.250000\n\
tokens,x4,1,32,10240,9216,100,51200,2.831155e9,2.000000\n";
    assert_eq!(table, want);
    for line in table.lines() {
        assert_eq!(line.matches(',').count(), 9);
    }
}

#[test]
fn compared_runs_are_not_evaluated_on_the_way() {
    let s = comparison_schedule(50, one(0.01)).unwrap();
    assert_eq!((s.steps, s.warmup_steps, s.eval_every), (50, 5, 51));
    assert_eq!(f32::from_bits(s.min_lr), 0.01f32 * 0.1);
    assert_eq!(comparison_schedule(5, one(0.01)).unwrap().warmup_steps, 1);
    assert!(comparison_schedule(1, one(0.01)).is_none());
}

#[test]
fn embeddings_are_held_to_their_promises() {
    for (norm, holds) in [(1.0f32, true), (1.000_009, true), (0.99, false), (1.000_02, false)] {
        assert_eq!(is_unit_length(norm.to_bits()), holds, "{}", norm);
    }
    assert!(!is_unit_length(f32::NAN.to_bits()));
    let v = [0.5f32.to_bits(), 0.0f32.to_bits()];
    assert!(repeats(&v, &[0.5f32.to_bits(), (-0.0f32).to_bits()]));
    assert!(!repeats(&v, &[0.5f32.to_bits()]));
    assert!(!repeats(&v, &[0.5f32.to_bits(), 1.0f32.to_bits()]));
    assert!(!repeats(&[f32::NAN.to_bits()], &[f32::NAN.to_bits()]));
    let hit = |score: f32| Hit { index: 0, score: score.to_bits() };
    assert!(all_silent(&[hit(0.0), hit(-0.0)]) && all_silent(&[]));
    assert!(!all_silent(&[hit(0.0), hit(1e-6)]));
    assert!(!all_silent(&[hit(f32::NAN)]));
}

#[test]
fn alignment_costs_no_break() {
    let plain = cut("one. two. three", 4, 0);
    let other = cut("one. two. three", 5, 0);
    assert!(alignment_helps(&other, &plain));
    assert!(!alignment_helps(&plain, &other));
}
