[package]
name = "zk_mpc"
version = "0.1.0"
edition = "2021"
publish = false

[dependencies]
rand = "0.8"
serde = { version = "1", features = ["derive"] }
serde_json = "1"
structopt = "0.3"
num-bigint = "0.4"
ark-bls12-377 = "0.3"
ark-mnt4-753 = "0.3"
ark-ff = "0.3"
ark-std = "0.3"
ark-serialize = "0.3"
ark-relations = "0.3"
ark-r1cs-std = "0.3"
ark-groth16 = "0.3"
ark-snark = "0.3"
ark-crypto-primitives = "0.3"
