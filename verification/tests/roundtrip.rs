// End-to-end proving through the STARK backend: the padded trace of a
// valid path yields a proof that verifies against the right public
// inputs and is rejected when any public input is altered.

use starkra::air::{PaddedTrace, pad_trace};
use starkra::cfg::Cfg;
use starkra::field::ALPHA;
use starkra::path::parse_execution_path;
use starkra::trace::build_trace;

use winterfell::crypto::hashers::Blake3_256;
use winterfell::crypto::{DefaultRandomCoin, MerkleTree};
use winterfell::math::fields::f64::BaseElement;
use winterfell::math::{FieldElement, ToElements};
use winterfell::matrix::ColMatrix;
use winterfell::Trace;
use winterfell::{
    AcceptableOptions, Air, AirContext, Assertion, AuxRandElements, BatchingMethod,
    CompositionPoly, CompositionPolyTrace, DefaultConstraintCommitment, DefaultConstraintEvaluator,
    DefaultTraceLde, EvaluationFrame, FieldExtension, PartitionOptions, Proof, ProofOptions,
    Prover, StarkDomain, TraceInfo, TracePolyTable, TraceTable, TransitionConstraintDegree,
    verify,
};

type Hasher = Blake3_256<BaseElement>;
type VerifierError = winterfell::VerifierError;

pub struct Pubs {
    start: BaseElement,
    end: BaseElement,
    nonce: BaseElement,
}

impl ToElements<BaseElement> for Pubs {
    fn to_elements(&self) -> Vec<BaseElement> {
        vec![self.start, self.end, self.nonce]
    }
}

pub struct StarkraAir {
    context: AirContext<BaseElement>,
    start: BaseElement,
    end: BaseElement,
    nonce: BaseElement,
}

impl Air for StarkraAir {
    type BaseField = BaseElement;
    type PublicInputs = Pubs;

    fn new(trace_info: TraceInfo, pub_inputs: Pubs, options: ProofOptions) -> Self {
        let w = trace_info.width() - 6;
        // declared degrees match the evaluations on a trace whose flag
        // columns vary and whose validity column is identically one
        let degrees = vec![
            TransitionConstraintDegree::new(1),
            TransitionConstraintDegree::new(2),
            TransitionConstraintDegree::new(2),
            TransitionConstraintDegree::new(1),
            TransitionConstraintDegree::new(2),
            TransitionConstraintDegree::new(1),
            TransitionConstraintDegree::new(w + 1),
            TransitionConstraintDegree::new(2),
            TransitionConstraintDegree::new(2),
        ];
        StarkraAir {
            context: AirContext::new(trace_info, degrees, 4, options),
            start: pub_inputs.start,
            end: pub_inputs.end,
            nonce: pub_inputs.nonce,
        }
    }

    // the same nine constraints that starkra::air states and checks
    fn evaluate_transition<E: FieldElement + From<Self::BaseField>>(
        &self,
        frame: &EvaluationFrame<E>,
        _periodic_values: &[E],
        result: &mut [E],
    ) {
        let cur = frame.current();
        let next = frame.next();
        let w = cur.len() - 6;
        let call = cur[5 + w];
        let ret = cur[4 + w];
        let valid = cur[3 + w];
        let one = E::ONE;
        let alpha = E::from(BaseElement::new(ALPHA));
        result[0] = next[0] - cur[0];
        result[1] = call * (call - one);
        result[2] = ret * (ret - one);
        result[3] = valid * (valid - one);
        result[4] = call * ret;
        result[5] = one - valid;
        let mut prod = one;
        for j in 0..w {
            prod = prod * (next[1] - cur[3 + j]);
        }
        result[6] = (one - ret) * prod;
        result[7] = ret * (next[2] * alpha + next[1] + one - cur[2]);
        result[8] = (one - call - ret) * (next[2] - cur[2]);
    }

    fn get_assertions(&self) -> Vec<Assertion<Self::BaseField>> {
        let last = self.trace_length() - 1;
        vec![
            Assertion::single(0, 0, self.nonce),
            Assertion::single(1, 0, self.start),
            Assertion::single(2, 0, BaseElement::ZERO),
            Assertion::single(1, last, self.end),
        ]
    }

    fn context(&self) -> &AirContext<Self::BaseField> {
        &self.context
    }
}

pub struct StarkraProver {
    options: ProofOptions,
}

impl Prover for StarkraProver {
    type BaseField = BaseElement;
    type Air = StarkraAir;
    type Trace = TraceTable<BaseElement>;
    type HashFn = Hasher;
    type VC = MerkleTree<Self::HashFn>;
    type RandomCoin = DefaultRandomCoin<Self::HashFn>;
    type TraceLde<E: FieldElement<BaseField = Self::BaseField>> =
        DefaultTraceLde<E, Self::HashFn, Self::VC>;
    type ConstraintCommitment<E: FieldElement<BaseField = Self::BaseField>> =
        DefaultConstraintCommitment<E, Self::HashFn, Self::VC>;
    type ConstraintEvaluator<'a, E: FieldElement<BaseField = Self::BaseField>> =
        DefaultConstraintEvaluator<'a, Self::Air, E>;

    fn get_pub_inputs(&self, trace: &Self::Trace) -> Pubs {
        let last = trace.length() - 1;
        Pubs {
            nonce: trace.get(0, 0),
            start: trace.get(1, 0),
            end: trace.get(1, last),
        }
    }

    fn options(&self) -> &ProofOptions {
        &self.options
    }

    fn new_trace_lde<E: FieldElement<BaseField = Self::BaseField>>(
        &self,
        trace_info: &TraceInfo,
        main_trace: &ColMatrix<Self::BaseField>,
        domain: &StarkDomain<Self::BaseField>,
        partition_option: PartitionOptions,
    ) -> (Self::TraceLde<E>, TracePolyTable<E>) {
        DefaultTraceLde::new(trace_info, main_trace, domain, partition_option)
    }

    fn build_constraint_commitment<E: FieldElement<BaseField = Self::BaseField>>(
        &self,
        composition_poly_trace: CompositionPolyTrace<E>,
        num_constraint_composition_columns: usize,
        domain: &StarkDomain<Self::BaseField>,
        partition_options: PartitionOptions,
    ) -> (Self::ConstraintCommitment<E>, CompositionPoly<E>) {
        DefaultConstraintCommitment::new(
            composition_poly_trace,
            num_constraint_composition_columns,
            domain,
            partition_options,
        )
    }

    fn new_evaluator<'a, E: FieldElement<BaseField = Self::BaseField>>(
        &self,
        air: &'a Self::Air,
        aux_rand_elements: Option<AuxRandElements<E>>,
        composition_coefficients: winterfell::ConstraintCompositionCoefficients<E>,
    ) -> Self::ConstraintEvaluator<'a, E> {
        DefaultConstraintEvaluator::new(air, aux_rand_elements, composition_coefficients)
    }
}

fn to_trace_table(pt: &PaddedTrace) -> TraceTable<BaseElement> {
    let width = pt.w + 6;
    let mut columns: Vec<Vec<BaseElement>> = vec![Vec::new(); width];
    for row in &pt.rows {
        for (c, &v) in row.iter().enumerate() {
            columns[c].push(BaseElement::new(v));
        }
    }
    TraceTable::init(columns)
}

fn test_options() -> ProofOptions {
    ProofOptions::new(
        32,
        8,
        0,
        FieldExtension::None,
        4,
        31,
        BatchingMethod::Linear,
        BatchingMethod::Linear,
    )
}

fn prove_table(table: TraceTable<BaseElement>) -> Proof {
    let prover = StarkraProver { options: test_options() };
    Prover::prove(&prover, table).expect("proving failed")
}

fn verify_proof(proof: Proof, start: u64, end: u64, nonce: u64) -> Result<(), VerifierError> {
    let pubs = Pubs {
        start: BaseElement::new(start),
        end: BaseElement::new(end),
        nonce: BaseElement::new(nonce),
    };
    let acceptable = AcceptableOptions::OptionSet(vec![test_options()]);
    verify::<StarkraAir, Hasher, DefaultRandomCoin<Hasher>, MerkleTree<Hasher>>(
        proof, pubs, &acceptable,
    )
}
#[test]
fn single_jump_scenario_checks_out() {
    // the one-jump scenario: the trace row is exactly as expected and the
    // verified constraint checker accepts the padded table with the right
    // public inputs only
    let cfg = Cfg::load(b"0 1 2\n1\n2\n").unwrap();
    let path = parse_execution_path(b"initial_node=0 final_node=1\njump 1\n").unwrap();
    let t = build_trace(&path, &cfg, 123).unwrap();
    assert_eq!(t.rows.len(), 1);
    assert_eq!(t.rows[0], vec![123, 0, 0, 1, 2, 1, 0, 0]);
    let pt = pad_trace(&t);
    let pubs = starkra::air::PublicInputs { start: 0, end: 1, nonce: 123 };
    assert!(starkra::air::check_trace(&pt, &pubs));
    let wrong = starkra::air::PublicInputs { start: 0, end: 2, nonce: 123 };
    assert!(!starkra::air::check_trace(&pt, &wrong));
}

#[test]
fn prove_and_verify_call_ret() {
    let cfg = Cfg::load(b"0 1 2\n1 0\n2\n").unwrap();
    let path = parse_execution_path(b"initial_node=0 final_node=7\ncall 1 7\nret 7\n").unwrap();
    let t = build_trace(&path, &cfg, 99).unwrap();
    let pt = pad_trace(&t);
    let proof = prove_table(to_trace_table(&pt));
    assert!(verify_proof(proof, 0, 7, 99).is_ok());
}

#[test]
fn verification_rejects_altered_public_inputs() {
    let cfg = Cfg::load(b"0 1 2\n1 0\n2\n").unwrap();
    let path = parse_execution_path(b"initial_node=0 final_node=7\ncall 1 7\nret 7\n").unwrap();
    let t = build_trace(&path, &cfg, 123).unwrap();
    let pt = pad_trace(&t);
    let table = to_trace_table(&pt);
    let proof = prove_table(table);
    // the same proof against each altered public input
    assert!(verify_proof(proof.clone(), 0, 2, 123).is_err());
    assert!(verify_proof(proof.clone(), 1, 7, 123).is_err());
    assert!(verify_proof(proof.clone(), 0, 7, 124).is_err());
    assert!(verify_proof(proof, 0, 7, 123).is_ok());
}
