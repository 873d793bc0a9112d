use rescue_transcript::circuit::{FpElemVar, PlonkCircuit, PlonkError, PointVariable, VerifyingKeyVar};
use rescue_transcript::conversion::{bytes_to_field_elements, field_switching, hash_to_field};
use rescue_transcript::field::{FieldElem, FieldId};
use rescue_transcript::transcript::{RescueTranscript, RescueTranscriptVar};
use ark_ff::{BigInteger, PrimeField};
use ark_std::{test_rng, UniformRand};

// A deterministic stand-in for the sponge collaborator's output block: four
// base-field values derived from the round tag. Both transcript variants are
// handed the same block, as the real gadget and native sponge would compute
// the same function of the absorbed values.
fn pseudo_sponge_output(round: u64, seed: &[u8]) -> Vec<FieldElem> {
    let mut out = Vec::new();
    for j in 0..4u8 {
        let mut input = seed.to_vec();
        input.extend_from_slice(&round.to_le_bytes());
        input.push(j);
        out.push(hash_to_field(&input, FieldId::Bls377Fq));
    }
    out
}

fn random_fq(rng: &mut impl ark_std::rand::RngCore) -> FieldElem {
    let v = ark_bls12_377::Fq::rand(rng);
    FieldElem::from_le_bytes_mod_order(FieldId::Bls377Fq, &v.into_bigint().to_bytes_le())
}

fn random_fr(rng: &mut impl ark_std::rand::RngCore) -> FieldElem {
    let v = ark_bls12_377::Fr::rand(rng);
    FieldElem::from_le_bytes_mod_order(FieldId::Bls377Fr, &v.into_bigint().to_bytes_le())
}

#[test]
fn test_rescue_transcript_challenge_circuit() {
    let label = b"testing";
    let mut circuit = PlonkCircuit::new(FieldId::Bls377Fq, true);
    let mut transcript_var = RescueTranscriptVar::new(&circuit);
    let mut transcript = RescueTranscript::new(label, FieldId::Bls377Fq);

    for round in 0..10u64 {
        for i in 0..10 {
            let msg = format!("message {}", i);
            let vals = bytes_to_field_elements(msg.as_bytes(), FieldId::Bls377Fq);
            let mut message_vars = Vec::new();
            for v in vals.iter() {
                message_vars.push(circuit.create_variable(v.duplicate()));
            }

            transcript.append_message(label, msg.as_bytes()).unwrap();
            transcript_var.append_message_vars(label, &message_vars).unwrap();
        }

        let out = pseudo_sponge_output(round, b"challenge round");
        let challenge_var = transcript_var
            .get_and_append_challenge_var(label, FieldId::Bls377Fr, &mut circuit, &out)
            .unwrap();
        let challenge =
            transcript.get_and_append_challenge(label, FieldId::Bls377Fr, &out).unwrap();

        assert_eq!(
            circuit.witness(challenge_var).le_bytes(),
            field_switching(&challenge, FieldId::Bls377Fq).le_bytes()
        );
    }
}

#[test]
fn test_single_message_challenge_matches_native() {
    // zero-initialized state, empty buffer; absorb "message 0"; one derivation
    let label = b"testing";
    let mut circuit = PlonkCircuit::new(FieldId::Bls377Fq, true);
    let mut transcript_var = RescueTranscriptVar::new(&circuit);
    let mut transcript = RescueTranscript::new(label, FieldId::Bls377Fq);

    let msg = b"message 0";
    let vals = bytes_to_field_elements(msg, FieldId::Bls377Fq);
    let mut message_vars = Vec::new();
    for v in vals.iter() {
        message_vars.push(circuit.create_variable(v.duplicate()));
    }
    transcript.append_message(label, msg).unwrap();
    transcript_var.append_message_vars(label, &message_vars).unwrap();

    // the sponge input: four zero state slots, then the message elements
    let hash_input = transcript_var.challenge_hash_input(&circuit);
    assert_eq!(hash_input.len(), 4 + message_vars.len());
    for slot in hash_input.iter().take(4) {
        assert_eq!(slot.le_bytes(), vec![0u8; 48]);
    }
    for (inp, val) in hash_input.iter().skip(4).zip(vals.iter()) {
        assert_eq!(inp.le_bytes(), val.le_bytes());
    }

    let out = pseudo_sponge_output(0, b"single message");
    let challenge_var = transcript_var
        .get_and_append_challenge_var(label, FieldId::Bls377Fr, &mut circuit, &out)
        .unwrap();
    let challenge = transcript.get_and_append_challenge(label, FieldId::Bls377Fr, &out).unwrap();

    assert_eq!(
        circuit.witness(challenge_var).le_bytes(),
        field_switching(&challenge, FieldId::Bls377Fq).le_bytes()
    );
}

#[test]
fn test_rescue_transcript_append_vk_and_input_circuit() {
    let label = b"testing";
    let mut circuit = PlonkCircuit::new(FieldId::Bls377Fq, true);
    let mut transcript_var = RescueTranscriptVar::new(&circuit);
    let mut transcript = RescueTranscript::new(label, FieldId::Bls377Fq);
    let mut rng = test_rng();

    // a verifying key with no commitments and no input appends nothing
    let dummy_vk = VerifyingKeyVar { selector_comms: Vec::new(), sigma_comms: Vec::new() };
    let before = transcript_var.buffer_len();
    transcript_var.append_vk_and_pub_input_vars(&mut circuit, &dummy_vk, &[]).unwrap();
    assert_eq!(transcript_var.buffer_len(), before);
    transcript.append_vk_and_pub_input(&Vec::new(), &Vec::new()).unwrap();

    let out = pseudo_sponge_output(0, b"vk round");
    let challenge_var = transcript_var
        .get_and_append_challenge_var(label, FieldId::Bls377Fr, &mut circuit, &out)
        .unwrap();
    let challenge = transcript.get_and_append_challenge(label, FieldId::Bls377Fr, &out).unwrap();
    assert_eq!(
        circuit.witness(challenge_var).le_bytes(),
        field_switching(&challenge, FieldId::Bls377Fq).le_bytes()
    );

    for round in 1..11u64 {
        // selector then sigma commitments: coordinate values already in the
        // sponge's coordinate system
        let mut comm_coords = Vec::new();
        let mut selector_comms = Vec::new();
        for _ in 0..33 {
            let x = random_fq(&mut rng);
            let y = random_fq(&mut rng);
            let vx = circuit.create_variable(x.duplicate());
            let vy = circuit.create_variable(y.duplicate());
            selector_comms.push(PointVariable::new(vx, vy));
            comm_coords.push(x);
            comm_coords.push(y);
        }
        let mut sigma_comms = Vec::new();
        for _ in 0..42 {
            let x = random_fq(&mut rng);
            let y = random_fq(&mut rng);
            let vx = circuit.create_variable(x.duplicate());
            let vy = circuit.create_variable(y.duplicate());
            sigma_comms.push(PointVariable::new(vx, vy));
            comm_coords.push(x);
            comm_coords.push(y);
        }
        let vk_var = VerifyingKeyVar { selector_comms, sigma_comms };

        // public inputs: scalar-field values, absorbed as two-limb variables
        let m = 128;
        let mut input_elems = Vec::new();
        let mut input_fps = Vec::new();
        for _ in 0..16 {
            let fr = random_fr(&mut rng);
            let fq = field_switching(&fr, FieldId::Bls377Fq);
            input_fps.push(FpElemVar::new(&mut circuit, &fq, m));
            input_elems.push(fr);
        }

        transcript.append_vk_and_pub_input(&comm_coords, &input_elems).unwrap();
        transcript_var
            .append_vk_and_pub_input_vars(&mut circuit, &vk_var, &input_fps)
            .unwrap();

        let out = pseudo_sponge_output(round, b"vk round");
        let challenge_var = transcript_var
            .get_and_append_challenge_var(label, FieldId::Bls377Fr, &mut circuit, &out)
            .unwrap();
        let challenge =
            transcript.get_and_append_challenge(label, FieldId::Bls377Fr, &out).unwrap();
        assert_eq!(
            circuit.witness(challenge_var).le_bytes(),
            field_switching(&challenge, FieldId::Bls377Fq).le_bytes()
        );
    }
}

#[test]
fn test_challenge_error_conditions() {
    let label = b"testing";
    let out = pseudo_sponge_output(0, b"errors");

    // no lookup support: a parameter error, and nothing changes
    let mut circuit = PlonkCircuit::new(FieldId::Bls377Fq, false);
    let mut transcript_var = RescueTranscriptVar::new(&circuit);
    let r = transcript_var.get_and_append_challenge_var(label, FieldId::Bls377Fr, &mut circuit, &out);
    assert_eq!(r, Err(PlonkError::ParameterError));
    assert_eq!(transcript_var.buffer_len(), 0);

    // a scalar field of the wrong bit length: a parameter error
    let mut circuit = PlonkCircuit::new(FieldId::Bls377Fq, true);
    let mut transcript_var = RescueTranscriptVar::new(&circuit);
    let r = transcript_var.get_and_append_challenge_var(label, FieldId::Bls381Fr, &mut circuit, &out);
    assert_eq!(r, Err(PlonkError::ParameterError));

    // the native variant rejects the same configuration
    let mut transcript = RescueTranscript::new(label, FieldId::Bls377Fq);
    assert!(transcript.get_and_append_challenge(label, FieldId::Bls381Fr, &out).is_err());
}

#[test]
fn test_consecutive_challenges_reproducible() {
    // two independent runs from the same start and the same sponge outputs
    // agree on both challenges; the second differs from the first
    let label = b"testing";
    let out1 = pseudo_sponge_output(1, b"ratchet");
    let out2 = pseudo_sponge_output(2, b"ratchet");

    let mut firsts = Vec::new();
    let mut seconds = Vec::new();
    for _ in 0..2 {
        let mut circuit = PlonkCircuit::new(FieldId::Bls377Fq, true);
        let mut transcript_var = RescueTranscriptVar::new(&circuit);
        let c1 = transcript_var
            .get_and_append_challenge_var(label, FieldId::Bls377Fr, &mut circuit, &out1)
            .unwrap();
        let c2 = transcript_var
            .get_and_append_challenge_var(label, FieldId::Bls377Fr, &mut circuit, &out2)
            .unwrap();
        firsts.push(circuit.witness(c1).le_bytes());
        seconds.push(circuit.witness(c2).le_bytes());
    }
    assert_eq!(firsts[0], firsts[1]);
    assert_eq!(seconds[0], seconds[1]);
    assert_ne!(firsts[0], seconds[0]);

    // the native variant walks through the same pair of challenges
    let mut transcript = RescueTranscript::new(label, FieldId::Bls377Fq);
    let n1 = transcript.get_and_append_challenge(label, FieldId::Bls377Fr, &out1).unwrap();
    let n2 = transcript.get_and_append_challenge(label, FieldId::Bls377Fr, &out2).unwrap();
    assert_eq!(field_switching(&n1, FieldId::Bls377Fq).le_bytes(), firsts[0]);
    assert_eq!(field_switching(&n2, FieldId::Bls377Fq).le_bytes(), seconds[0]);
}
