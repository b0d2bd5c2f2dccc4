use tiny_llm::block::Ffn;
use tiny_llm::census::param_count;
use tiny_llm::chunks::borders_on_breaks;
use tiny_llm::chunks::check_chunks;
use tiny_llm::chunks::falls;
use tiny_llm::chunks::max_pairwise_similarity;
use tiny_llm::chunks::rebuild;
use tiny_llm::chunks::score_range;
use tiny_llm::chunks::sizes_hold;
use tiny_llm::chunks::Chunk;
use tiny_llm::chunks::RagArgs;
use tiny_llm::chunks::RagFault;
use tiny_llm::config::GPTConfig;
use tiny_llm::demo::count_correct;
use tiny_llm::demo::naive_matmul;
use tiny_llm::demo::window_room;
use tiny_llm::dist::assemble_columns;
use tiny_llm::dist::columns_covered;
use tiny_llm::dist::full_state;
use tiny_llm::dist::local_values;
use tiny_llm::dist::max_abs_diff;
use tiny_llm::dist::ranges_covered;
use tiny_llm::dist::shard;
use tiny_llm::dist::step_traffic;
use tiny_llm::dist::take_batch;
use tiny_llm::dist::xavier_data;
use tiny_llm::dist::DistArgs;
use tiny_llm::dist::DistFault;
use tiny_llm::drafts::gamma_sweep;
use tiny_llm::drafts::has_learned;
use tiny_llm::drafts::likeliest;
use tiny_llm::drafts::loss_ends;
use tiny_llm::drafts::token_prob;
use tiny_llm::drafts::total_variation;
use tiny_llm::drafts::within_noise;
use tiny_llm::drafts::CacheLedger;
use tiny_llm::drafts::FixedDrafter;
use tiny_llm::drafts::RoundFault;
use tiny_llm::drafts::SpecArgs;
use tiny_llm::drafts::SpecFault;
use tiny_llm::drafts::SpecStats;
use tiny_llm::model::GPT;
use tiny_llm::moe_lab::aux_not_raised;
use tiny_llm::moe_lab::capacity_text;
use tiny_llm::moe_lab::first_sparse;
use tiny_llm::moe_lab::isolated_choices;
use tiny_llm::moe_lab::moe_config;
use tiny_llm::moe_lab::moe_probe;
use tiny_llm::moe_lab::route_report;
use tiny_llm::moe_lab::skew_router;
use tiny_llm::moe_lab::sparse_account;
use tiny_llm::params::Module;
use tiny_llm::prefs::after_prompt;
use tiny_llm::prefs::answer_group;
use tiny_llm::prefs::make_seq;
use tiny_llm::prefs::masked_probe;
use tiny_llm::prefs::pair_at;
use tiny_llm::prefs::AlignArgs;
use tiny_llm::prefs::AlignFault;
use tiny_llm::sparse::sparse_stats;
use tiny_llm::sparse::RouteStats;

fn bits(v: &[f32]) -> Vec<u32> {
    v.iter().map(|x| x.to_bits()).collect()
}

fn floats(v: &[u32]) -> Vec<f32> {
    v.iter().map(|x| f32::from_bits(*x)).collect()
}

fn tape(n: usize) -> Vec<u32> {
    (0..n).map(|i| ((i as f32 * 0.7).sin()).to_bits()).collect()
}

fn model_of(cfg: GPTConfig) -> GPT {
    let d = cfg.n_embd;
    let ffn = if cfg.n_expert > 1 { cfg.n_expert * (8 * d * d + d) } else { 8 * d * d };
    GPT::new(cfg, &tape(cfg.n_layer * (ffn + 4 * d * d) + cfg.vocab_size * d))
}

#[test]
fn sparse_models_match_their_account() {
    let zero = 0.0f32.to_bits();
    let dense = model_of(moe_config(8, 16, 2, 32, 1, 1, zero, zero));
    let cfg = moe_config(8, 16, 2, 32, 4, 2, 0.5f32.to_bits(), zero);
    assert!(!cfg.moe_switch_gate);
    assert!(moe_config(8, 16, 2, 32, 4, 1, zero, zero).moe_switch_gate);
    let sparse = model_of(cfg);
    let dense_size = param_count(&dense.parameters());
    let a = sparse_account(dense_size as usize, 2, &sparse_stats(4, 2, 16, false));
    assert_eq!(a.expected, param_count(&sparse.parameters()));
    assert_eq!(a.activated, a.expected - 2 * 2 * sparse_stats(4, 2, 16, false).expert_params as u128);
    assert_eq!(first_sparse(&[1, 1, 4, 8]), Some(4));
    assert_eq!(first_sparse(&[1, 0]), None);
    assert_eq!(isolated_choices(1), vec![1]);
    assert_eq!(isolated_choices(3), vec![1, 3]);
}

#[test]
fn collapsed_routers_choose_one_expert() {
    let zero = 0.0f32.to_bits();
    let mut m = model_of(moe_config(8, 16, 2, 32, 4, 1, zero, zero));
    assert_eq!(skew_router(&mut m), 2);
    for b in &m.blocks {
        match &b.ffn {
            Ffn::Moe(l) => {
                assert_eq!(floats(&l.router.bias.data), vec![3.0, 0.0, 0.0, 0.0]);
                assert!(l.router.weight.data.iter().all(|v| *v == 0));
                let plan = l.route_plan(&tape(5 * 16), 5, 16);
                assert_eq!(plan.routed, vec![5, 0, 0, 0]);
            }
            Ffn::Dense(_) => unreachable!(),
        }
    }
    let mut dense = model_of(moe_config(8, 16, 2, 32, 1, 1, zero, zero));
    assert_eq!(skew_router(&mut dense), 0);
}

#[test]
fn load_reports_are_exact() {
    let st = RouteStats { counts: vec![10, 0, 5, 5], dropped: 4, n_tokens: 12, aux: 0 };
    let r = route_report(&st, 2);
    assert_eq!(r.imbalance.num as f64 / r.imbalance.den as f64, 2.0);
    assert_eq!(r.used, 3);
    assert_eq!(r.dropped.num as f64 / r.dropped.den as f64, 4.0 / 24.0);
    assert_eq!(r.assigned, 24);
    assert_eq!(r.bars, vec![40, 0, 20, 20]);
    let a = RouteStats { counts: vec![1, 2], dropped: 1, n_tokens: 3, aux: 1.0f32.to_bits() };
    let b = RouteStats { counts: vec![3, 0], dropped: 0, n_tokens: 3, aux: 2.0f32.to_bits() };
    let p = moe_probe(&[a, b]);
    assert_eq!((p.counts, p.dropped, p.n_tokens), (vec![4, 2], 1, 6));
    assert_eq!(f32::from_bits(p.aux), 1.5);
    assert_eq!(capacity_text(12), "12");
    assert_eq!(capacity_text(usize::MAX), "不限");
    assert!(aux_not_raised(1.5f32.to_bits(), 1.5f32.to_bits()));
    assert!(aux_not_raised(1.5f32.to_bits(), 1.2f32.to_bits()));
    assert!(!aux_not_raised(1.5f32.to_bits(), 1.6f32.to_bits()));
}

fn dist_args() -> DistArgs {
    DistArgs {
        dp: 2,
        tp: 2,
        pp: 2,
        micro_batches: 2,
        steps: 3,
        batch_size: 1,
        block_size: 4,
        lr: 0.1f32.to_bits(),
        weight_decay: 0.1f32.to_bits(),
        n_embd: 8,
        n_layer: 2,
        seed: 5,
    }
}

#[test]
fn every_fault_of_a_split_is_named() {
    let a = dist_args();
    assert_eq!(a.check(), Ok(()));
    assert_eq!(DistArgs { tp: 0, ..a }.check(), Err(DistFault::Degree));
    assert_eq!(DistArgs { micro_batches: 0, ..a }.check(), Err(DistFault::MicroBatches));
    assert_eq!(DistArgs { steps: 1, ..a }.check(), Err(DistFault::Steps));
    assert_eq!(DistArgs { n_embd: 6, ..a }.check(), Err(DistFault::Width));
    assert_eq!(DistArgs { weight_decay: 0, ..a }.check(), Err(DistFault::NoDecay));
    assert_eq!(a.check_split(), Ok(()));
    assert_eq!(DistArgs { tp: 3, ..a }.check_split(), Err(DistFault::Indivisible));
    assert_eq!(take_batch(&a, &[1; 16]).unwrap_err(), DistFault::CorpusTooShort);
}

#[test]
fn shards_put_the_batch_together() {
    let a = dist_args();
    let corpus: Vec<usize> = (100..140).collect();
    let b = take_batch(&a, &corpus).unwrap();
    let start = (5 * 13) % (40 - 8);
    assert_eq!(b.ids, corpus[start..start + 8].to_vec());
    assert_eq!(b.targets[0], b.ids[1]);
    assert_eq!(b.targets[7], b.ids[0]);
    let mut all = shard(&b.ids, 4, 0).to_vec();
    all.extend_from_slice(shard(&b.ids, 4, 1));
    assert_eq!(all, b.ids);
}

#[test]
fn split_tensors_are_put_together() {
    assert!(columns_covered(4, &[vec![0, 2], vec![1, 3]]));
    assert!(!columns_covered(4, &[vec![0, 2], vec![1]]));
    assert!(!columns_covered(2, &[vec![0, 1], vec![1]]));
    assert!(ranges_covered(5, &[(0, 2), (2, 5)]));
    assert!(!ranges_covered(5, &[(0, 2), (3, 5)]));
    let out = assemble_columns(&[vec![1, 3, 5, 7], vec![2, 6]], &[vec![0, 2], vec![1]], 2, 3);
    assert_eq!(out, vec![1, 2, 3, 5, 6, 7]);
    assert_eq!(step_traffic(4, 100), 8 * 3 * 100);
    assert_eq!(full_state(100), 800);
    let v = floats(&local_values(3, 2));
    assert_eq!(v, vec![22.0 * 0.01f32, 59.0 * 0.01, 96.0 * 0.01]);
    let d = max_abs_diff(&bits(&[1.0, 5.0, 2.0]), &bits(&[1.5, 2.0, 2.0]));
    assert_eq!(f32::from_bits(d), 3.0);
    let x = floats(&xavier_data(1, 3, &bits(&[1.0, -2.0, 4.0])));
    let std = 0.5f32.sqrt();
    assert_eq!(x, vec![std, -2.0 * std, 4.0 * std]);
}

fn align_args() -> AlignArgs {
    let half = 0.5f32.to_bits();
    AlignArgs {
        rm_steps: 1,
        rm_lr: half,
        steps: 1,
        lr: half,
        beta: half,
        clip_eps: half,
        kl_coef: half,
        group_size: 4,
        n_embd: 8,
        n_layer: 1,
        block_size: 16,
        batch_size: 2,
    }
}

#[test]
fn every_fault_of_an_alignment_is_named() {
    let a = align_args();
    assert_eq!(a.check(), Ok(()));
    assert_eq!(AlignArgs { n_embd: 7, ..a }.check(), Err(AlignFault::Width));
    assert_eq!(AlignArgs { rm_steps: 0, ..a }.check(), Err(AlignFault::RewardSteps));
    assert_eq!(AlignArgs { steps: 0, ..a }.check(), Err(AlignFault::Steps));
    assert_eq!(AlignArgs { beta: 0, ..a }.check(), Err(AlignFault::Beta));
    assert_eq!(AlignArgs { clip_eps: 0, ..a }.check(), Err(AlignFault::ClipRange));
    assert_eq!(AlignArgs { kl_coef: 0, ..a }.check(), Err(AlignFault::KlCoef));
    assert_eq!(AlignArgs { group_size: 1, ..a }.check(), Err(AlignFault::GroupSize));
    assert_eq!(masked_probe(None, &[1; 12]).unwrap_err(), AlignFault::ShortCorpus);
}

#[test]
fn answers_are_made() {
    assert_eq!(make_seq(1, 2, 2, 9), vec![1, 2, 1, 2, 9]);
    assert_eq!(after_prompt(&[7, 8], &[1]), vec![7, 8, 1]);
    let p = masked_probe(Some(50), &(0..100).collect::<Vec<usize>>()).unwrap();
    assert_eq!(p.prompt_len, 9);
    assert_eq!(p.ids.len(), 25);
    assert_eq!((p.ids[0], p.ids[1]), (50, 0));
    let g = answer_group(&[7], 1, 2, 8, 9, 4);
    assert_eq!(g[0], vec![7, 1, 2, 1, 2, 8]);
    assert_eq!(g[1], vec![7, 1, 2, 1, 2, 1, 2, 9]);
    assert_eq!(g[3], vec![7, 1, 2, 1, 2, 9]);
    assert_eq!(pair_at(7, 3), 1);
}

fn rag_args() -> RagArgs {
    RagArgs {
        chunk_size: 100,
        overlap: 20,
        top_k: 3,
        hash_dim: 64,
        context_chars: 200,
        mmr_lambda: 0.5f32.to_bits(),
        mmr_pool: 10,
        n_embd: 8,
    }
}

#[test]
fn every_fault_of_a_retrieval_is_named() {
    let a = rag_args();
    assert_eq!(a.check(), Ok(()));
    assert_eq!(RagArgs { overlap: 100, ..a }.check(), Err(RagFault::Overlap));
    assert_eq!(RagArgs { top_k: 0, ..a }.check(), Err(RagFault::TopK));
    assert_eq!(RagArgs { hash_dim: 0, ..a }.check(), Err(RagFault::HashDim));
    assert_eq!(RagArgs { context_chars: 0, ..a }.check(), Err(RagFault::Budget));
    assert_eq!(RagArgs { mmr_lambda: 1.5f32.to_bits(), ..a }.check(), Err(RagFault::Lambda));
    assert_eq!(RagArgs { mmr_lambda: f32::NAN.to_bits(), ..a }.check(), Err(RagFault::Lambda));
    assert_eq!(RagArgs { n_embd: 9, ..a }.check(), Err(RagFault::Width));
    assert_eq!((a.model_window(), a.tight_budget()), (108, 40));
    let b = RagArgs { chunk_size: 30, context_chars: 10, ..a };
    assert_eq!((b.model_window(), b.tight_budget()), (64, 10));
}

fn chunk(text: &str, start: usize) -> Chunk {
    Chunk { text: text.to_string(), start, end: start + text.chars().count() }
}

#[test]
fn pieces_give_the_text_back() {
    let pieces = vec![chunk("天地玄黄。", 0), chunk("黄。宇宙", 3), chunk("宇宙洪荒", 5)];
    assert!(check_chunks(&pieces, 2));
    assert!(!check_chunks(&pieces, 1));
    assert_eq!(rebuild(&pieces, 2), "天地玄黄。宇宙洪荒");
    assert_eq!(borders_on_breaks(&pieces), 1);
    assert!(sizes_hold(&pieces, 4));
    assert!(!sizes_hold(&pieces, 3));
    assert!(check_chunks(&[], 3));
}

#[test]
fn scores_are_compared() {
    let (lo, hi) = score_range(&bits(&[0.5, -1.0, 2.0]));
    assert_eq!((f32::from_bits(lo), f32::from_bits(hi)), (-1.0, 2.0));
    assert!(falls(&bits(&[3.0, 2.0, 2.0]), 1e-6f32.to_bits()));
    assert!(!falls(&bits(&[1.0, 2.0]), 1e-6f32.to_bits()));
    let sim = |i: usize, j: usize| -> u32 { ((i * 10 + j) as f32 * 0.1).to_bits() };
    assert_eq!(f32::from_bits(max_pairwise_similarity(&sim, 3)), 12.0 * 0.1);
}

fn spec_args() -> SpecArgs {
    SpecArgs {
        gamma: 3,
        max_new: 8,
        mtp_heads: 2,
        mtp_steps: 4,
        trials: 200,
        n_embd: 8,
        n_layer: 1,
        batch_size: 2,
        block_size: 16,
    }
}

#[test]
fn every_fault_of_a_drafting_run_is_named() {
    let a = spec_args();
    assert_eq!(a.check(), Ok(()));
    assert_eq!(SpecArgs { n_embd: 7, ..a }.check(), Err(SpecFault::Width));
    assert_eq!(SpecArgs { gamma: 0, ..a }.check(), Err(SpecFault::Gamma));
    assert_eq!(SpecArgs { mtp_heads: 0, ..a }.check(), Err(SpecFault::Heads));
    assert_eq!(SpecArgs { mtp_steps: 0, ..a }.check(), Err(SpecFault::HeadSteps));
    assert_eq!(SpecArgs { max_new: 0, ..a }.check(), Err(SpecFault::MaxNew));
    assert_eq!(SpecArgs { trials: 199, ..a }.check(), Err(SpecFault::Trials));
    assert_eq!(SpecArgs { block_size: 3, ..a }.check(), Err(SpecFault::Window));
    assert_eq!(gamma_sweep(16), vec![1, 2, 4, 8]);
    assert_eq!(gamma_sweep(5), vec![1, 2, 4]);
    assert!(gamma_sweep(1).is_empty());
}

#[test]
fn drafts_are_measured() {
    let ids = [4usize, 9];
    let probs = bits(&[0.75, 0.25]);
    assert_eq!(f32::from_bits(token_prob(&ids, &probs, 9)), 0.25);
    assert_eq!(f32::from_bits(token_prob(&ids, &probs, 5)), 0.0);
    // Half of ten for token one, half for token zero, against certainty of token one.
    let tv = total_variation(&[5, 5], 10, &[1], &bits(&[1.0]));
    assert_eq!(f32::from_bits(tv), 0.5);
    assert_eq!(likeliest(&bits(&[0.1, 0.4, 0.2, 0.3])), vec![1, 3, 2]);
    // What is no number comes last.
    assert_eq!(likeliest(&bits(&[f32::NAN, 0.1, 0.4])), vec![2, 1, 0]);
    assert!(within_noise(510, 1000, 0.5f32.to_bits()));
    assert!(!within_noise(700, 1000, 0.5f32.to_bits()));
    let (first, last) = loss_ends(&bits(&[5.0, 5.0, 5.0, 5.0, 5.0, 1.0, 1.0, 1.0, 1.0, 1.0]));
    assert_eq!((f32::from_bits(first), f32::from_bits(last)), (5.0, 1.0));
    assert!(has_learned(first, last) && !has_learned(last, first));
    let (first, last) = loss_ends(&bits(&[3.0, 1.0, 2.0]));
    assert_eq!((f32::from_bits(first), f32::from_bits(last)), (2.0, 2.0));
    let (first, last) = loss_ends(&bits(&[7.0]));
    assert_eq!((f32::from_bits(first), f32::from_bits(last)), (7.0, 7.0));
    let d = FixedDrafter { ids: vec![1, 2], probs: bits(&[0.5, 0.5]) };
    let p = d.propose(&[2, 1]);
    assert_eq!((p.len(), p[0].token, p[1].token), (2, 2, 1));
    assert_eq!(p[0].ids, vec![1, 2]);
}

#[test]
fn rounds_are_entered() {
    let mut l = CacheLedger { gamma: 3, len: 5, fed: 4 };
    assert_eq!(l.round(0, 4), Err(RoundFault::Nothing));
    assert_eq!(l.round(5, 9), Err(RoundFault::TooMany));
    assert_eq!(l.round(2, 7), Err(RoundFault::Misaligned));
    assert_eq!(l.round(2, 6), Ok(()));
    assert_eq!((l.len, l.fed), (7, 6));
    let s = SpecStats {
        rounds: 2,
        drafted: 6,
        accepted: 4,
        corrected: 1,
        bonus: 1,
        target_forwards: 2,
        emitted: 6,
    };
    assert!(s.is_balanced());
    assert!(!SpecStats { emitted: 7, ..s }.is_balanced());
}

#[test]
fn small_demonstrations_compute() {
    assert_eq!(count_correct(&bits(&[1.0, 2.0, 3.0, 0.0]), &[1, 0]), 2);
    assert_eq!(count_correct(&bits(&[1.0, 2.0, 3.0, 0.0]), &[0, 0]), 1);
    let out = naive_matmul(&bits(&[1.0, 2.0, 3.0, 4.0]), &bits(&[5.0, 6.0, 7.0, 8.0]), 1, 2, 1, 2);
    assert_eq!(floats(&out), vec![17.0, 53.0]);
    assert_eq!(window_room(8, 5), 3);
    assert_eq!(window_room(8, 9), 0);
}
