//! Zobrist keys: one per square and content, one for the side to move and one
//! per side and number of barrels still in hand.
//!
//! The keys are the first outputs of a xorshift generator with a fixed seed,
//! laid out as constants; `lemma_keys` proves the table equal to the generator.
use vstd::prelude::*;
use crate::board::Cell;

verus! {

/// Where the generator starts.
pub const SEED: u64 = 0x123456789abcdef0;

const NUM_KEYS: usize = 191;

const PLAYER_KEY_AT: usize = 180;

const OFF_BOARD_AT: usize = 181;

const KEYS: [u64; NUM_KEYS] = [
    0xb7fb0288c5ee4339, 0x42fef730e71e2254, 0x835d6ba41ba14966, 0x167e48ff294127de, 0x142402fc43cea75d,
    0x740af7202526d05d, 0x04f9767cba9ceef5, 0x4556e11e43aad6f0, 0xdf9d0020dc3e0fba, 0x02e9d501f9487ae6,
    0x140b016bf26382b4, 0xdc43479ac37a7e80, 0x2796987528c98aba, 0x6f8d1fd27a78ad35, 0x108ff78d8077a623,
    0x95179b0d1eb1af39, 0x9557b13ff99b2fdb, 0x5835751a420ac04b, 0x07c28b64a6cd5638, 0x96f2eaa3ecebc3ab,
    0xb5f597e09b471dd0, 0x17dd13935aae9a39, 0x6b36feb0caf7a721, 0xdcff391bebd5410b, 0xa600e327de6383e7,
    0xbfd90323215c4f36, 0x8763d2f098762a5e, 0xce2ebce68b8ac074, 0x90e01b5fa3810af1, 0xac188b76666ae3fa,
    0x3f7ab1c6aac4ca6e, 0xb77fe237b89bac3a, 0x20205f161900d903, 0xbe227748c589cf81, 0xa70c76922ed66040,
    0x8866735f88d0c7a9, 0x42dd6500b7be047a, 0x940f359f8c2ac763, 0x314f88aa754747f8, 0x041959c9ab9eab3e,
    0x1b04a4f3645306d8, 0x64f307879cf607bf, 0xaca23a8a0d1b82e1, 0xf1c7497ac027eac3, 0xa1fddbcd97bcef3e,
    0x5cde3f15babb5fbc, 0x207aac55986e32ef, 0xe1b4537193abac96, 0x1786a87562f310f3, 0x6b6dad2dc20ecbcc,
    0x2ceb1c40f7a492bc, 0xcf4a4e757aca43a0, 0x7bfdd88e50146710, 0x41926667ad5a7759, 0xe682e6eb282a822c,
    0xecb98dc236a0059a, 0x9661ebe445e07ca0, 0x0cba5afc6091e9b5, 0xbc53c9c5b2964fa4, 0xe242be0c39bf9fc3,
    0x6468402a5413b348, 0xacee2078191ef054, 0x09f9fc12da30a75c, 0x0ab43415b8f94682, 0xbd42e57612e92c7e,
    0xd979ff1ec83a5469, 0xe32f2315c1a4bb58, 0x8c52ba2e1bd4701c, 0x60a801cbe0cdecac, 0xa3cd25cc8114b8ca,
    0xdea61fea94794f89, 0x80cf4eae03dca4bf, 0x39fa648cf6832f62, 0x8eac512a19b5e065, 0x0e29ae10d975c8aa,
    0x79f4c86bff4a4dc7, 0xd2a182bb97c04f91, 0xde0893d2697f2708, 0xce5c19869f5d34a0, 0x1d2f52d9e0b2f682,
    0xf350b94d0865f4dc, 0x974913e7e7deb947, 0x53af046e9b55ea66, 0x62ecb61d14b87ae8, 0xc9deecd334035101,
    0xeecfdd2497bb179e, 0x93d982565af16af3, 0xde547120382a63a2, 0x8e35544d3a597f44, 0xc53d01bca0cb0105,
    0x8f7e4ebbd46678b0, 0xba2179eb214998b1, 0x04d9d84fb34583a9, 0xff457b99603d151c, 0xadc41609f9a3f821,
    0xe229cf803afcf481, 0x14cdb720aae339bf, 0xaff8c1044e09cded, 0xdde31777816719df, 0xfa43b2dfc9f00cc2,
    0x2a31b8fcf553aa51, 0x123da8ab4a95716a, 0xaa82e8278d7eca7f, 0xc74af8222dd9bcef, 0xa68571a2deee5b38,
    0x8ceeb41d4e537e5c, 0xc63df819f579f17d, 0x87f73797f6667205, 0x570af485dcd63391, 0xc33efe919fd9ae53,
    0x4989b5e9fe1170d3, 0x48b558e3044d2a51, 0x8ec172a72b705ab1, 0x4aab4853a7ec6f6e, 0x036380fadbbb76ab,
    0x988f857cd079abe3, 0x130bcc1271040c1e, 0xb64d0d126b53df2f, 0x0261b3e8a5651e2f, 0x4561974c0befc48b,
    0xddda52e21edec402, 0xe4835474e776a74f, 0x08d230f45f7bd221, 0x2178372da9d96c57, 0x619694e92bc40bd5,
    0x65fcab65616104dc, 0xf39f1c22e37064b6, 0xd5a3213a10c62e18, 0x9c3ed2d741f64c9a, 0xa9406ce082c44bb5,
    0x878beb3f48eec131, 0xfae6964159562e4b, 0x1ad19b1c66e8fe08, 0xc06f93e060056c7d, 0x2e7c604624d69a02,
    0xe9a006ca582eaeac, 0xa246a53f0111c9f5, 0x8b2f08536fb1faad, 0x1c25e5901de1ce59, 0x4f07c9d646692fa3,
    0xfaf54334ad835f27, 0x4547ea8b0cebe4d7, 0xac937c0ad6254acf, 0xf5398146b45326ca, 0x1982c0715e94215c,
    0xaef58bfe92cb0f64, 0xcf65b06d04fd505c, 0x6590a0c0358cf5ee, 0x261ee4bc783453be, 0xf61e39cbc0949a56,
    0xa97c2381c751ce6f, 0xbfa9d5231c3d2529, 0x67ab7549a6d69d96, 0x14e01400a1b304b4, 0xef6d69401d988518,
    0x558176cf5a683ed2, 0x47c9b721868bfea8, 0xbfc498a5fb57e7ee, 0x1835ce99856baaed, 0x0939d4da94793339,
    0x9e385854949cd606, 0x6546b6d333fefe09, 0x9e9fa73cfb18ddae, 0x7cccdc123a72e04b, 0xbb96ced733d8b2f5,
    0x80b11b1df329d91a, 0x70f9a870b2bab73a, 0xbc4c512b08f1ba59, 0x851174b993fedc36, 0xbafa67612e337002,
    0xc6fb9feb764886b8, 0x285bdb39debecce4, 0xa030aac4403f56ca, 0xfe966281b4274781, 0x5d213c7f10ecf871,
    0x6b59abcf317856dc, 0xcd6216e304a4a5f1, 0x8402eed9fc147ee9, 0x579be08f83fbe2c3, 0x6059e804770446a8,
    0xcfa616333e725eae, 0xb833fa678be055bf, 0x91752375a4dcc9da, 0xd21d611ab6e467b2, 0x0252d24102254720,
    0xabe17b52ed92a7ee, 0x478810354717c755, 0xe9c173a3d952f878, 0x094b8977210895fa, 0xd29c3714a595d350,
    0xbd5210ec8c7a6aca,
];

/// One step of the generator's state.
pub open spec fn xorshift(state: u64) -> u64 {
    let a = state ^ (state >> 12);
    let b = a ^ (a << 25);
    b ^ (b >> 27)
}

/// The output for a state: its product with the multiplier, cut to 64 bits.
pub open spec fn scramble(state: u64) -> u64 {
    (state * 0x2545F4914F6CDD1Du64) as u64
}

/// The state after `n` steps.
pub open spec fn state_after(n: nat) -> u64
    decreases n,
{
    if n == 0 {
        SEED
    } else {
        xorshift(state_after((n - 1) as nat))
    }
}

/// The `n`th output, counted from zero.
pub open spec fn output(n: nat) -> u64 {
    scramble(state_after(n + 1))
}

/// Outputs 0 to 179 key square and content, output 180 the side to move,
/// the last ten the barrels in hand.
pub open spec fn piece_key(s: int, c: Cell) -> u64 {
    output((s * 5 + piece_index(c)) as nat)
}

pub open spec fn side_key() -> u64 {
    output(180)
}

pub open spec fn off_board_key(player: int, count: int) -> u64 {
    output((181 + player * 5 + count) as nat)
}

pub open spec fn piece_index(c: Cell) -> int {
    match c {
        Cell::Empty => 0,
        Cell::WhiteBarrel => 1,
        Cell::BlackBarrel => 2,
        Cell::WhitePail => 3,
        Cell::BlackPail => 4,
    }
}

proof fn lemma_steps()
    by (bit_vector)
    ensures
        xorshift(0x123456789abcdef0) == 0x69cf1fdabed68fcd && scramble(0x69cf1fdabed68fcd) == 0xb7fb0288c5ee4339,
        xorshift(0x69cf1fdabed68fcd) == 0x3f4f79e9e0925f64 && scramble(0x3f4f79e9e0925f64) == 0x42fef730e71e2254,
        xorshift(0x3f4f79e9e0925f64) == 0x03b095b28a1ee01e && scramble(0x03b095b28a1ee01e) == 0x835d6ba41ba14966,
        xorshift(0x03b095b28a1ee01e) == 0x7412c236b36e06f6 && scramble(0x7412c236b36e06f6) == 0x167e48ff294127de,
        xorshift(0x7412c236b36e06f6) == 0x413589729ab41f41 && scramble(0x413589729ab41f41) == 0x142402fc43cea75d,
        xorshift(0x413589729ab41f41) == 0x152aa140a8c99c41 && scramble(0x152aa140a8c99c41) == 0x740af7202526d05d,
        xorshift(0x152aa140a8c99c41) == 0xc05275d3068da9b9 && scramble(0xc05275d3068da9b9) == 0x04f9767cba9ceef5,
        xorshift(0xc05275d3068da9b9) == 0x28e90b73809cafb0 && scramble(0x28e90b73809cafb0) == 0x4556e11e43aad6f0,
        xorshift(0x28e90b73809cafb0) == 0xee84ccb2133d3382 && scramble(0xee84ccb2133d3382) == 0xdf9d0020dc3e0fba,
        xorshift(0xee84ccb2133d3382) == 0x133a1cfc1d5f9f9e && scramble(0x133a1cfc1d5f9f9e) == 0x02e9d501f9487ae6,
        xorshift(0x133a1cfc1d5f9f9e) == 0xa89e13dc0f5c3344 && scramble(0xa89e13dc0f5c3344) == 0x140b016bf26382b4,
        xorshift(0xa89e13dc0f5c3344) == 0xd2f1a3aa62a8b080 && scramble(0xd2f1a3aa62a8b080) == 0xdc43479ac37a7e80,
        xorshift(0xd2f1a3aa62a8b080) == 0xb24c9192079caa82 && scramble(0xb24c9192079caa82) == 0x2796987528c98aba,
        xorshift(0xb24c9192079caa82) == 0x047accfd01e54cf9 && scramble(0x047accfd01e54cf9) == 0x6f8d1fd27a78ad35,
        xorshift(0x047accfd01e54cf9) == 0xa7e6e1e068e96c3f && scramble(0xa7e6e1e068e96c3f) == 0x108ff78d8077a623,
        xorshift(0xa7e6e1e068e96c3f) == 0xbb01405c44c7ebcd && scramble(0xbb01405c44c7ebcd) == 0x95179b0d1eb1af39,
        xorshift(0xbb01405c44c7ebcd) == 0x2b88f702561d4757 && scramble(0x2b88f702561d4757) == 0x9557b13ff99b2fdb,
        xorshift(0x2b88f702561d4757) == 0x31c63fc618ffde87 && scramble(0x31c63fc618ffde87) == 0x5835751a420ac04b,
        xorshift(0x31c63fc618ffde87) == 0x7a0c1f08511db198 && scramble(0x7a0c1f08511db198) == 0x07c28b64a6cd5638,
        xorshift(0x7a0c1f08511db198) == 0xe9488e940e897167 && scramble(0xe9488e940e897167) == 0x96f2eaa3ecebc3ab,
        xorshift(0xe9488e940e897167) == 0xd089893516f8bc10 && scramble(0xd089893516f8bc10) == 0xb5f597e09b471dd0,
        xorshift(0xd089893516f8bc10) == 0x8b8fd21bc25392cd && scramble(0x8b8fd21bc25392cd) == 0x17dd13935aae9a39,
        xorshift(0x8b8fd21bc25392cd) == 0x4640b581c3f906d5 && scramble(0x4640b581c3f906d5) == 0x6b36feb0caf7a721,
        xorshift(0x4640b581c3f906d5) == 0x53731bf27f864647 && scramble(0x53731bf27f864647) == 0xdcff391bebd5410b,
        xorshift(0x53731bf27f864647) == 0xd4f76fa5184c49d3 && scramble(0xd4f76fa5184c49d3) == 0xa600e327de6383e7,
        xorshift(0xd4f76fa5184c49d3) == 0x733e1b47abdea42e && scramble(0x733e1b47abdea42e) == 0xbfd90323215c4f36,
        xorshift(0x733e1b47abdea42e) == 0x3f06609277680b76 && scramble(0x3f06609277680b76) == 0x8763d2f098762a5e,
        xorshift(0x3f06609277680b76) == 0xd7f90e156d6ebc04 && scramble(0xd7f90e156d6ebc04) == 0xce2ebce68b8ac074,
        xorshift(0xd7f90e156d6ebc04) == 0xdcec014bcfb840e5 && scramble(0xdcec014bcfb840e5) == 0x90e01b5fa3810af1,
        xorshift(0xdcec014bcfb840e5) == 0xcb57c6e473fc64c2 && scramble(0xcb57c6e473fc64c2) == 0xac188b76666ae3fa,
        xorshift(0xcb57c6e473fc64c2) == 0xfb60053179bbfec6 && scramble(0xfb60053179bbfec6) == 0x3f7ab1c6aac4ca6e,
        xorshift(0xfb60053179bbfec6) == 0x993aebe8fff11a02 && scramble(0x993aebe8fff11a02) == 0xb77fe237b89bac3a,
        xorshift(0x993aebe8fff11a02) == 0x15b1858ed14e549f && scramble(0x15b1858ed14e549f) == 0x20205f161900d903,
        xorshift(0x15b1858ed14e549f) == 0x38a3981169d042b5 && scramble(0x38a3981169d042b5) == 0xbe227748c589cf81,
        xorshift(0x38a3981169d042b5) == 0x69719f9aa4f52d40 && scramble(0x69719f9aa4f52d40) == 0xa70c76922ed66040,
        xorshift(0x69719f9aa4f52d40) == 0x6fcdb64a80e9aafd && scramble(0x6fcdb64a80e9aafd) == 0x8866735f88d0c7a9,
        xorshift(0x6fcdb64a80e9aafd) == 0x4c03c9d0aa389f42 && scramble(0x4c03c9d0aa389f42) == 0x42dd6500b7be047a,
        xorshift(0x4c03c9d0aa389f42) == 0x94696d872c1f8e7f && scramble(0x94696d872c1f8e7f) == 0x940f359f8c2ac763,
        xorshift(0x94696d872c1f8e7f) == 0xb788f1980b737e58 && scramble(0xb788f1980b737e58) == 0x314f88aa754747f8,
        xorshift(0xb788f1980b737e58) == 0x99a66e96f83e19d6 && scramble(0x99a66e96f83e19d6) == 0x041959c9ab9eab3e,
        xorshift(0x99a66e96f83e19d6) == 0x798d57cb4efb62b8 && scramble(0x798d57cb4efb62b8) == 0x1b04a4f3645306d8,
        xorshift(0x798d57cb4efb62b8) == 0x45ee500c93858d8b && scramble(0x45ee500c93858d8b) == 0x64f307879cf607bf,
        xorshift(0x45ee500c93858d8b) == 0x96cc9790ecde4595 && scramble(0x96cc9790ecde4595) == 0xaca23a8a0d1b82e1,
        xorshift(0x96cc9790ecde4595) == 0x25ee5a4dca1bc15f && scramble(0x25ee5a4dca1bc15f) == 0xf1c7497ac027eac3,
        xorshift(0x25ee5a4dca1bc15f) == 0x75318a670ef62dd6 && scramble(0x75318a670ef62dd6) == 0xa1fddbcd97bcef3e,
        xorshift(0x75318a670ef62dd6) == 0x8a67d4eb8c7c5dec && scramble(0x8a67d4eb8c7c5dec) == 0x5cde3f15babb5fbc,
        xorshift(0x8a67d4eb8c7c5dec) == 0xa7eafbb66d9bee7b && scramble(0xa7eafbb66d9bee7b) == 0x207aac55986e32ef,
        xorshift(0xa7eafbb66d9bee7b) == 0x944d7f64d552d90e && scramble(0x944d7f64d552d90e) == 0xe1b4537193abac96,
        xorshift(0x944d7f64d552d90e) == 0xf20204b5255f194f && scramble(0xf20204b5255f194f) == 0x1786a87562f310f3,
        xorshift(0xf20204b5255f194f) == 0xd8d13e17082a8d3c && scramble(0xd8d13e17082a8d3c) == 0x6b6dad2dc20ecbcc,
        xorshift(0xd8d13e17082a8d3c) == 0xd10e0701e09aecec && scramble(0xd10e0701e09aecec) == 0x2ceb1c40f7a492bc,
        xorshift(0xd10e0701e09aecec) == 0x12221e2950c72020 && scramble(0x12221e2950c72020) == 0xcf4a4e757aca43a0,
        xorshift(0x12221e2950c72020) == 0x034798507ea12650 && scramble(0x034798507ea12650) == 0x7bfdd88e50146710,
        xorshift(0x034798507ea12650) == 0x50b0e1bb69bafa6d && scramble(0x50b0e1bb69bafa6d) == 0x41926667ad5a7759,
        xorshift(0x50b0e1bb69bafa6d) == 0x3a51f271bc322f1c && scramble(0x3a51f271bc322f1c) == 0xe682e6eb282a822c,
        xorshift(0x3a51f271bc322f1c) == 0xe76404aa0ba97ae2 && scramble(0xe76404aa0ba97ae2) == 0xecb98dc236a0059a,
        xorshift(0xe76404aa0ba97ae2) == 0x33e8616cd605ed20 && scramble(0x33e8616cd605ed20) == 0x9661ebe445e07ca0,
        xorshift(0x33e8616cd605ed20) == 0xe66aceecf1915379 && scramble(0xe66aceecf1915379) == 0x0cba5afc6091e9b5,
        xorshift(0xe66aceecf1915379) == 0x665a14d80c1cd0f4 && scramble(0x665a14d80c1cd0f4) == 0xbc53c9c5b2964fa4,
        xorshift(0x665a14d80c1cd0f4) == 0x94df4949a8753a5f && scramble(0x94df4949a8753a5f) == 0xe242be0c39bf9fc3,
        xorshift(0x94df4949a8753a5f) == 0xeeafdbdaf114c5e8 && scramble(0xeeafdbdaf114c5e8) == 0x6468402a5413b348,
        xorshift(0xeeafdbdaf114c5e8) == 0xa038469a03b30564 && scramble(0xa038469a03b30564) == 0xacee2078191ef054,
        xorshift(0xa038469a03b30564) == 0x9ce663715edf520c && scramble(0x9ce663715edf520c) == 0x09f9fc12da30a75c,
        xorshift(0x9ce663715edf520c) == 0xb23c387edc4db2ea && scramble(0xb23c387edc4db2ea) == 0x0ab43415b8f94682,
        xorshift(0xb23c387edc4db2ea) == 0xc8805b4829ab1c16 && scramble(0xc8805b4829ab1c16) == 0xbd42e57612e92c7e,
        xorshift(0xc8805b4829ab1c16) == 0x53b6804aa5f98ebd && scramble(0x53b6804aa5f98ebd) == 0xd979ff1ec83a5469,
        xorshift(0x53b6804aa5f98ebd) == 0x16f11c8235704138 && scramble(0x16f11c8235704138) == 0xe32f2315c1a4bb58,
        xorshift(0x16f11c8235704138) == 0x310ad5b9a409a1cc && scramble(0x310ad5b9a409a1cc) == 0x8c52ba2e1bd4701c,
        xorshift(0x310ad5b9a409a1cc) == 0x18f6e2d54d4fbb9c && scramble(0x18f6e2d54d4fbb9c) == 0x60a801cbe0cdecac,
        xorshift(0x18f6e2d54d4fbb9c) == 0x6e375b6868f003d2 && scramble(0x6e375b6868f003d2) == 0xa3cd25cc8114b8ca,
        xorshift(0x6e375b6868f003d2) == 0x558d550ecbdc2c5d && scramble(0x558d550ecbdc2c5d) == 0xdea61fea94794f89,
        xorshift(0x558d550ecbdc2c5d) == 0xe2be6ce4f2fd0e8b && scramble(0xe2be6ce4f2fd0e8b) == 0x80cf4eae03dca4bf,
        xorshift(0xe2be6ce4f2fd0e8b) == 0xe6c9235c5396494a && scramble(0xe6c9235c5396494a) == 0x39fa648cf6832f62,
        xorshift(0xe6c9235c5396494a) == 0x7a0be9217b2e55e9 && scramble(0x7a0be9217b2e55e9) == 0x8eac512a19b5e065,
        xorshift(0x7a0be9217b2e55e9) == 0x45de3a594afead32 && scramble(0x45de3a594afead32) == 0x0e29ae10d975c8aa,
        xorshift(0x45de3a594afead32) == 0x3004b3b95ffc7533 && scramble(0x3004b3b95ffc7533) == 0x79f4c86bff4a4dc7,
        xorshift(0x3004b3b95ffc7533) == 0xd4cf60fd15859605 && scramble(0xd4cf60fd15859605) == 0xd2a182bb97c04f91,
        xorshift(0xd4cf60fd15859605) == 0xc2f6858ffc847ca8 && scramble(0xc2f6858ffc847ca8) == 0xde0893d2697f2708,
        xorshift(0xc2f6858ffc847ca8) == 0x0db25d8fcc300520 && scramble(0x0db25d8fcc300520) == 0xce5c19869f5d34a0,
        xorshift(0x0db25d8fcc300520) == 0x599b1f2d67af22ea && scramble(0x599b1f2d67af22ea) == 0x1d2f52d9e0b2f682,
        xorshift(0x599b1f2d67af22ea) == 0x60b47420b3f7dd8c && scramble(0x60b47420b3f7dd8c) == 0xf350b94d0865f4dc,
        xorshift(0x60b47420b3f7dd8c) == 0xaf5186b7f9cc36b3 && scramble(0xaf5186b7f9cc36b3) == 0x974913e7e7deb947,
        xorshift(0xaf5186b7f9cc36b3) == 0xf07e14e57d71351e && scramble(0xf07e14e57d71351e) == 0x53af046e9b55ea66,
        xorshift(0xf07e14e57d71351e) == 0xf8175edf2bcd3a08 && scramble(0xf8175edf2bcd3a08) == 0x62ecb61d14b87ae8,
        xorshift(0xf8175edf2bcd3a08) == 0xad94a0b2c2ab9235 && scramble(0xad94a0b2c2ab9235) == 0xc9deecd334035101,
        xorshift(0xad94a0b2c2ab9235) == 0x5c0d7682502969b6 && scramble(0x5c0d7682502969b6) == 0xeecfdd2497bb179e,
        xorshift(0x5c0d7682502969b6) == 0xf678ae9db719bb4f && scramble(0xf678ae9db719bb4f) == 0x93d982565af16af3,
        xorshift(0xf678ae9db719bb4f) == 0xd8ca4c99ef8b5a8a && scramble(0xd8ca4c99ef8b5a8a) == 0xde547120382a63a2,
        xorshift(0xd8ca4c99ef8b5a8a) == 0xa28beb6d0968cd14 && scramble(0xa28beb6d0968cd14) == 0x8e35544d3a597f44,
        xorshift(0xa28beb6d0968cd14) == 0x05feb364306e3709 && scramble(0x05feb364306e3709) == 0xc53d01bca0cb0105,
        xorshift(0x05feb364306e3709) == 0x1bf2b6efac7bec70 && scramble(0x1bf2b6efac7bec70) == 0x8f7e4ebbd46678b0,
        xorshift(0x1bf2b6efac7bec70) == 0x92760b81104059a5 && scramble(0x92760b81104059a5) == 0xba2179eb214998b1,
        xorshift(0x92760b81104059a5) == 0x512f8e50cda096fd && scramble(0x512f8e50cda096fd) == 0x04d9d84fb34583a9,
        xorshift(0x512f8e50cda096fd) == 0x017bc431efd4cacc && scramble(0x017bc431efd4cacc) == 0xff457b99603d151c,
        xorshift(0x017bc431efd4cacc) == 0x1a2247e1e882cbd5 && scramble(0x1a2247e1e882cbd5) == 0xadc41609f9a3f821,
        xorshift(0x1a2247e1e882cbd5) == 0x910edd504547ebb5 && scramble(0x910edd504547ebb5) == 0xe229cf803afcf481,
        xorshift(0x910edd504547ebb5) == 0xea274adf42aae78b && scramble(0xea274adf42aae78b) == 0x14cdb720aae339bf,
        xorshift(0xea274adf42aae78b) == 0xbdf755261bb46b11 && scramble(0xbdf755261bb46b11) == 0xaff8c1044e09cded,
        xorshift(0xbdf755261bb46b11) == 0x1b6f21f08a31ee2b && scramble(0x1b6f21f08a31ee2b) == 0xdde31777816719df,
        xorshift(0x1b6f21f08a31ee2b) == 0x1e44e59b37a5fe2a && scramble(0x1e44e59b37a5fe2a) == 0xfa43b2dfc9f00cc2,
        xorshift(0x1e44e59b37a5fe2a) == 0xb4992ccb17331fc5 && scramble(0xb4992ccb17331fc5) == 0x2a31b8fcf553aa51,
        xorshift(0xb4992ccb17331fc5) == 0x07256180d72e5cf2 && scramble(0x07256180d72e5cf2) == 0x123da8ab4a95716a,
        xorshift(0x07256180d72e5cf2) == 0xaabb559fb6499f4b && scramble(0xaabb559fb6499f4b) == 0xaa82e8278d7eca7f,
        xorshift(0xaabb559fb6499f4b) == 0xff6e9bc2a661807b && scramble(0xff6e9bc2a661807b) == 0xc74af8222dd9bcef,
        xorshift(0xff6e9bc2a661807b) == 0xa955faf2f6f4ba98 && scramble(0xa955faf2f6f4ba98) == 0xa68571a2deee5b38,
        xorshift(0xa955faf2f6f4ba98) == 0xf3ecd8188240d50c && scramble(0xf3ecd8188240d50c) == 0x8ceeb41d4e537e5c,
        xorshift(0xf3ecd8188240d50c) == 0x59e4773c3d4617e1 && scramble(0x59e4773c3d4617e1) == 0xc63df819f579f17d,
        xorshift(0x59e4773c3d4617e1) == 0xaf7ce2e9a1199c09 && scramble(0xaf7ce2e9a1199c09) == 0x87f73797f6667205,
        xorshift(0xaf7ce2e9a1199c09) == 0xe0691220a2a1ca05 && scramble(0xe0691220a2a1ca05) == 0x570af485dcd63391,
        xorshift(0xe0691220a2a1ca05) == 0x83664361de638e2f && scramble(0x83664361de638e2f) == 0xc33efe919fd9ae53,
        xorshift(0x83664361de638e2f) == 0x88be89c4d1af52af && scramble(0x88be89c4d1af52af) == 0x4989b5e9fe1170d3,
        xorshift(0x88be89c4d1af52af) == 0xd02dc6a6fc5a9fc5 && scramble(0xd02dc6a6fc5a9fc5) == 0x48b558e3044d2a51,
        xorshift(0xd02dc6a6fc5a9fc5) == 0x250caecaefa083a5 && scramble(0x250caecaefa083a5) == 0x8ec172a72b705ab1,
        xorshift(0x250caecaefa083a5) == 0x2508e2f7f81227c6 && scramble(0x2508e2f7f81227c6) == 0x4aab4853a7ec6f6e,
        xorshift(0x2508e2f7f81227c6) == 0xd6a4692ecbe08067 && scramble(0xd6a4692ecbe08067) == 0x036380fadbbb76ab,
        xorshift(0xd6a4692ecbe08067) == 0x061b1b14446f5cff && scramble(0x061b1b14446f5cff) == 0x988f857cd079abe3,
        xorshift(0x061b1b14446f5cff) == 0x4df12c985f0e8836 && scramble(0x4df12c985f0e8836) == 0x130bcc1271040c1e,
        xorshift(0x4df12c985f0e8836) == 0x58d8e5703197d7bb && scramble(0x58d8e5703197d7bb) == 0xb64d0d126b53df2f,
        xorshift(0x58d8e5703197d7bb) == 0xa4104177689ce2bb && scramble(0xa4104177689ce2bb) == 0x0261b3e8a5651e2f,
        xorshift(0xa4104177689ce2bb) == 0x42e5d4adc950ffc7 && scramble(0x42e5d4adc950ffc7) == 0x4561974c0befc48b,
        xorshift(0x42e5d4adc950ffc7) == 0xa3e6e2316f502e6a && scramble(0xa3e6e2316f502e6a) == 0xddda52e21edec402,
        xorshift(0xa3e6e2316f502e6a) == 0x1d7451ea32cce65b && scramble(0x1d7451ea32cce65b) == 0xe4835474e776a74f,
        xorshift(0x1d7451ea32cce65b) == 0x432d593263c4edd5 && scramble(0x432d593263c4edd5) == 0x08d230f45f7bd221,
        xorshift(0x432d593263c4edd5) == 0x8cc8ae555ff71903 && scramble(0x8cc8ae555ff71903) == 0x2178372da9d96c57,
        xorshift(0x8cc8ae555ff71903) == 0x33b5271528060419 && scramble(0x33b5271528060419) == 0x619694e92bc40bd5,
        xorshift(0x33b5271528060419) == 0xbd04b5580bc22d8c && scramble(0xbd04b5580bc22d8c) == 0x65fcab65616104dc,
        xorshift(0xbd04b5580bc22d8c) == 0x9bb3e023743e97ae && scramble(0x9bb3e023743e97ae) == 0xf39f1c22e37064b6,
        xorshift(0x9bb3e023743e97ae) == 0xa15648a1d2c0c2f8 && scramble(0xa15648a1d2c0c2f8) == 0xd5a3213a10c62e18,
        xorshift(0xa15648a1d2c0c2f8) == 0x2bede61dcd612de2 && scramble(0x2bede61dcd612de2) == 0x9c3ed2d741f64c9a,
        xorshift(0x2bede61dcd612de2) == 0xacb62321da799d79 && scramble(0xacb62321da799d79) == 0xa9406ce082c44bb5,
        xorshift(0xacb62321da799d79) == 0x2b6c203345e03c25 && scramble(0x2b6c203345e03c25) == 0x878beb3f48eec131,
        xorshift(0x2b6c203345e03c25) == 0xc9e33e2c36b3a487 && scramble(0xc9e33e2c36b3a487) == 0xfae6964159562e4b,
        xorshift(0xc9e33e2c36b3a487) == 0xf647419e6698ffa8 && scramble(0xf647419e6698ffa8) == 0x1ad19b1c66e8fe08,
        xorshift(0xf647419e6698ffa8) == 0x22b6d8c267a58ee1 && scramble(0x22b6d8c267a58ee1) == 0xc06f93e060056c7d,
        xorshift(0x22b6d8c267a58ee1) == 0x7d63f44935fd7c6a && scramble(0x7d63f44935fd7c6a) == 0x2e7c604624d69a02,
        xorshift(0x7d63f44935fd7c6a) == 0x9186fe233bb1e59c && scramble(0x9186fe233bb1e59c) == 0xe9a006ca582eaeac,
        xorshift(0x9186fe233bb1e59c) == 0x083ce2f0da1e00b9 && scramble(0x083ce2f0da1e00b9) == 0xa246a53f0111c9f5,
        xorshift(0x083ce2f0da1e00b9) == 0x75d64672fddb6ed1 && scramble(0x75d64672fddb6ed1) == 0x8b2f08536fb1faad,
        xorshift(0x75d64672fddb6ed1) == 0x58e4f27b486afd6d && scramble(0x58e4f27b486afd6d) == 0x1c25e5901de1ce59,
        xorshift(0x58e4f27b486afd6d) == 0x303ec0c5ec0663bf && scramble(0x303ec0c5ec0663bf) == 0x4f07c9d646692fa3,
        xorshift(0x303ec0c5ec0663bf) == 0x63fd72622df6ee13 && scramble(0x63fd72622df6ee13) == 0xfaf54334ad835f27,
        xorshift(0x63fd72622df6ee13) == 0x09ece5d6cc488b83 && scramble(0x09ece5d6cc488b83) == 0x4547ea8b0cebe4d7,
        xorshift(0x09ece5d6cc488b83) == 0x38ce33819ee23fdb && scramble(0x38ce33819ee23fdb) == 0xac937c0ad6254acf,
        xorshift(0x38ce33819ee23fdb) == 0xfd8048dee6f2c9d2 && scramble(0xfd8048dee6f2c9d2) == 0xf5398146b45326ca,
        xorshift(0xfd8048dee6f2c9d2) == 0x4959a99ebc29940c && scramble(0x4959a99ebc29940c) == 0x1982c0715e94215c,
        xorshift(0x4959a99ebc29940c) == 0x4116b8a12d1543b4 && scramble(0x4116b8a12d1543b4) == 0xaef58bfe92cb0f64,
        xorshift(0x4116b8a12d1543b4) == 0xd45ca6f5ec934f0c && scramble(0xd45ca6f5ec934f0c) == 0xcf65b06d04fd505c,
        xorshift(0xd45ca6f5ec934f0c) == 0xab56782699028046 && scramble(0xab56782699028046) == 0x6590a0c0358cf5ee,
        xorshift(0xab56782699028046) == 0x296a1b64ea287c56 && scramble(0x296a1b64ea287c56) == 0x261ee4bc783453be,
        xorshift(0x296a1b64ea287c56) == 0xa3d0406c846ed1ce && scramble(0xa3d0406c846ed1ce) == 0xf61e39cbc0949a56,
        xorshift(0xa3d0406c846ed1ce) == 0x72df30489f409ffb && scramble(0x72df30489f409ffb) == 0xa97c2381c751ce6f,
        xorshift(0x72df30489f409ffb) == 0x05ef8f6cc238867d && scramble(0x05ef8f6cc238867d) == 0xbfa9d5231c3d2529,
        xorshift(0x05ef8f6cc238867d) == 0x2d8638da6e33be0e && scramble(0x2d8638da6e33be0e) == 0x67ab7549a6d69d96,
        xorshift(0x2d8638da6e33be0e) == 0x5e43ca0841ec1d44 && scramble(0x5e43ca0841ec1d44) == 0x14e01400a1b304b4,
        xorshift(0x5e43ca0841ec1d44) == 0x3784fe351bf7c5f8 && scramble(0x3784fe351bf7c5f8) == 0xef6d69401d988518,
        xorshift(0x3784fe351bf7c5f8) == 0xc276ca97be7f2b7a && scramble(0xc276ca97be7f2b7a) == 0x558176cf5a683ed2,
        xorshift(0xc276ca97be7f2b7a) == 0x3454e4648d9840c8 && scramble(0x3454e4648d9840c8) == 0x47c9b721868bfea8,
        xorshift(0x3454e4648d9840c8) == 0x61c000146bd09a46 && scramble(0x61c000146bd09a46) == 0xbfc498a5fb57e7ee,
        xorshift(0x61c000146bd09a46) == 0x49133053d6f02c11 && scramble(0x49133053d6f02c11) == 0x1835ce99856baaed,
        xorshift(0x49133053d6f02c11) == 0x88b03bf7e3ca3fcd && scramble(0x88b03bf7e3ca3fcd) == 0x0939d4da94793339,
        xorshift(0x88b03bf7e3ca3fcd) == 0x6001d8fe808f1d3e && scramble(0x6001d8fe808f1d3e) == 0x9e385854949cd606,
        xorshift(0x6001d8fe808f1d3e) == 0xa61916dc5245ccdd && scramble(0xa61916dc5245ccdd) == 0x6546b6d333fefe09,
        xorshift(0xa61916dc5245ccdd) == 0x3c6c769bb00e3b06 && scramble(0x3c6c769bb00e3b06) == 0x9e9fa73cfb18ddae,
        xorshift(0x3c6c769bb00e3b06) == 0x85dcda3ba82e7e87 && scramble(0x85dcda3ba82e7e87) == 0x7cccdc123a72e04b,
        xorshift(0x85dcda3ba82e7e87) == 0x69c3ae03f3e13db9 && scramble(0x69c3ae03f3e13db9) == 0xbb96ced733d8b2f5,
        xorshift(0x69c3ae03f3e13db9) == 0x1be28e3d3b8fc462 && scramble(0x1be28e3d3b8fc462) == 0x80b11b1df329d91a,
        xorshift(0x1be28e3d3b8fc462) == 0x305388eaee2d6102 && scramble(0x305388eaee2d6102) == 0x70f9a870b2bab73a,
        xorshift(0x305388eaee2d6102) == 0x94918ac75ab2d96d && scramble(0x94918ac75ab2d96d) == 0xbc4c512b08f1ba59,
        xorshift(0x94918ac75ab2d96d) == 0x2b754d3e186ed52e && scramble(0x2b754d3e186ed52e) == 0x851174b993fedc36,
        xorshift(0x2b754d3e186ed52e) == 0xfee0e4d29193ca6a && scramble(0xfee0e4d29193ca6a) == 0xbafa67612e337002,
        xorshift(0xfee0e4d29193ca6a) == 0x47567f729a753c18 && scramble(0x47567f729a753c18) == 0xc6fb9feb764886b8,
        xorshift(0x47567f729a753c18) == 0x6d88b32e4a4aff34 && scramble(0x6d88b32e4a4aff34) == 0x285bdb39debecce4,
        xorshift(0x6d88b32e4a4aff34) == 0x277f3716a148b9d2 && scramble(0x277f3716a148b9d2) == 0xa030aac4403f56ca,
        xorshift(0x277f3716a148b9d2) == 0xecdd05a2f9821ab5 && scramble(0xecdd05a2f9821ab5) == 0xfe966281b4274781,
        xorshift(0xecdd05a2f9821ab5) == 0x09949376b93fec65 && scramble(0x09949376b93fec65) == 0x5d213c7f10ecf871,
        xorshift(0x09949376b93fec65) == 0x7688a2ce6940278c && scramble(0x7688a2ce6940278c) == 0x6b59abcf317856dc,
        xorshift(0x7688a2ce6940278c) == 0xfe04873c993657e5 && scramble(0xfe04873c993657e5) == 0xcd6216e304a4a5f1,
        xorshift(0xfe04873c993657e5) == 0x17de98ff112cdb3d && scramble(0x17de98ff112cdb3d) == 0x8402eed9fc147ee9,
        xorshift(0x17de98ff112cdb3d) == 0x3ae25e822296195f && scramble(0x3ae25e822296195f) == 0x579be08f83fbe2c3,
        xorshift(0x3ae25e822296195f) == 0x757498c9182728c8 && scramble(0x757498c9182728c8) == 0x6059e804770446a8,
        xorshift(0x757498c9182728c8) == 0x745aa2db6be2f006 && scramble(0x745aa2db6be2f006) == 0xcfa616333e725eae,
        xorshift(0x745aa2db6be2f006) == 0x96d14fffce7db38b && scramble(0x96d14fffce7db38b) == 0xb833fa678be055bf,
        xorshift(0x96d14fffce7db38b) == 0x40bb204b86e55c22 && scramble(0x40bb204b86e55c22) == 0x91752375a4dcc9da,
        xorshift(0x40bb204b86e55c22) == 0xb3bb918b1b2f01da && scramble(0xb3bb918b1b2f01da) == 0xd21d611ab6e467b2,
        xorshift(0xb3bb918b1b2f01da) == 0xd7b7974ea16c59a0 && scramble(0xd7b7974ea16c59a0) == 0x0252d24102254720,
        xorshift(0xd7b7974ea16c59a0) == 0xb811e0be1dba5a46 && scramble(0xb811e0be1dba5a46) == 0xabe17b52ed92a7ee,
        xorshift(0xb811e0be1dba5a46) == 0xf836d6bcd6815599 && scramble(0xf836d6bcd6815599) == 0x478810354717c755,
        xorshift(0xf836d6bcd6815599) == 0x5b43cda1cd3588d8 && scramble(0x5b43cda1cd3588d8) == 0xe9c173a3d952f878,
        xorshift(0x5b43cda1cd3588d8) == 0x61682b263a2c3ec2 && scramble(0x61682b263a2c3ec2) == 0x094b8977210895fa,
        xorshift(0x61682b263a2c3ec2) == 0x287ea299859bcf90 && scramble(0x287ea299859bcf90) == 0xd29c3714a595d350,
        xorshift(0x287ea299859bcf90) == 0xcf2422461087ddd2 && scramble(0xcf2422461087ddd2) == 0xbd5210ec8c7a6aca,
{
}

proof fn lemma_keys(n: int)
    requires
        0 <= n < 191,
    ensures
        KEYS@[n] == output(n as nat),
{
    lemma_steps();
    assert(state_after(0) == SEED);
    assert(state_after(1) == 0x69cf1fdabed68fcd);
    if n == 0 {
        assert(KEYS@[0] == 0xb7fb0288c5ee4339);
    }
    assert(state_after(2) == 0x3f4f79e9e0925f64);
    if n == 1 {
        assert(KEYS@[1] == 0x42fef730e71e2254);
    }
    assert(state_after(3) == 0x03b095b28a1ee01e);
    if n == 2 {
        assert(KEYS@[2] == 0x835d6ba41ba14966);
    }
    assert(state_after(4) == 0x7412c236b36e06f6);
    if n == 3 {
        assert(KEYS@[3] == 0x167e48ff294127de);
    }
    assert(state_after(5) == 0x413589729ab41f41);
    if n == 4 {
        assert(KEYS@[4] == 0x142402fc43cea75d);
    }
    assert(state_after(6) == 0x152aa140a8c99c41);
    if n == 5 {
        assert(KEYS@[5] == 0x740af7202526d05d);
    }
    assert(state_after(7) == 0xc05275d3068da9b9);
    if n == 6 {
        assert(KEYS@[6] == 0x04f9767cba9ceef5);
    }
    assert(state_after(8) == 0x28e90b73809cafb0);
    if n == 7 {
        assert(KEYS@[7] == 0x4556e11e43aad6f0);
    }
    assert(state_after(9) == 0xee84ccb2133d3382);
    if n == 8 {
        assert(KEYS@[8] == 0xdf9d0020dc3e0fba);
    }
    assert(state_after(10) == 0x133a1cfc1d5f9f9e);
    if n == 9 {
        assert(KEYS@[9] == 0x02e9d501f9487ae6);
    }
    assert(state_after(11) == 0xa89e13dc0f5c3344);
    if n == 10 {
        assert(KEYS@[10] == 0x140b016bf26382b4);
    }
    assert(state_after(12) == 0xd2f1a3aa62a8b080);
    if n == 11 {
        assert(KEYS@[11] == 0xdc43479ac37a7e80);
    }
    assert(state_after(13) == 0xb24c9192079caa82);
    if n == 12 {
        assert(KEYS@[12] == 0x2796987528c98aba);
    }
    assert(state_after(14) == 0x047accfd01e54cf9);
    if n == 13 {
        assert(KEYS@[13] == 0x6f8d1fd27a78ad35);
    }
    assert(state_after(15) == 0xa7e6e1e068e96c3f);
    if n == 14 {
        assert(KEYS@[14] == 0x108ff78d8077a623);
    }
    assert(state_after(16) == 0xbb01405c44c7ebcd);
    if n == 15 {
        assert(KEYS@[15] == 0x95179b0d1eb1af39);
    }
    assert(state_after(17) == 0x2b88f702561d4757);
    if n == 16 {
        assert(KEYS@[16] == 0x9557b13ff99b2fdb);
    }
    assert(state_after(18) == 0x31c63fc618ffde87);
    if n == 17 {
        assert(KEYS@[17] == 0x5835751a420ac04b);
    }
    assert(state_after(19) == 0x7a0c1f08511db198);
    if n == 18 {
        assert(KEYS@[18] == 0x07c28b64a6cd5638);
    }
    assert(state_after(20) == 0xe9488e940e897167);
    if n == 19 {
        assert(KEYS@[19] == 0x96f2eaa3ecebc3ab);
    }
    assert(state_after(21) == 0xd089893516f8bc10);
    if n == 20 {
        assert(KEYS@[20] == 0xb5f597e09b471dd0);
    }
    assert(state_after(22) == 0x8b8fd21bc25392cd);
    if n == 21 {
        assert(KEYS@[21] == 0x17dd13935aae9a39);
    }
    assert(state_after(23) == 0x4640b581c3f906d5);
    if n == 22 {
        assert(KEYS@[22] == 0x6b36feb0caf7a721);
    }
    assert(state_after(24) == 0x53731bf27f864647);
    if n == 23 {
        assert(KEYS@[23] == 0xdcff391bebd5410b);
    }
    assert(state_after(25) == 0xd4f76fa5184c49d3);
    if n == 24 {
        assert(KEYS@[24] == 0xa600e327de6383e7);
    }
    assert(state_after(26) == 0x733e1b47abdea42e);
    if n == 25 {
        assert(KEYS@[25] == 0xbfd90323215c4f36);
    }
    assert(state_after(27) == 0x3f06609277680b76);
    if n == 26 {
        assert(KEYS@[26] == 0x8763d2f098762a5e);
    }
    assert(state_after(28) == 0xd7f90e156d6ebc04);
    if n == 27 {
        assert(KEYS@[27] == 0xce2ebce68b8ac074);
    }
    assert(state_after(29) == 0xdcec014bcfb840e5);
    if n == 28 {
        assert(KEYS@[28] == 0x90e01b5fa3810af1);
    }
    assert(state_after(30) == 0xcb57c6e473fc64c2);
    if n == 29 {
        assert(KEYS@[29] == 0xac188b76666ae3fa);
    }
    assert(state_after(31) == 0xfb60053179bbfec6);
    if n == 30 {
        assert(KEYS@[30] == 0x3f7ab1c6aac4ca6e);
    }
    assert(state_after(32) == 0x993aebe8fff11a02);
    if n == 31 {
        assert(KEYS@[31] == 0xb77fe237b89bac3a);
    }
    assert(state_after(33) == 0x15b1858ed14e549f);
    if n == 32 {
        assert(KEYS@[32] == 0x20205f161900d903);
    }
    assert(state_after(34) == 0x38a3981169d042b5);
    if n == 33 {
        assert(KEYS@[33] == 0xbe227748c589cf81);
    }
    assert(state_after(35) == 0x69719f9aa4f52d40);
    if n == 34 {
        assert(KEYS@[34] == 0xa70c76922ed66040);
    }
    assert(state_after(36) == 0x6fcdb64a80e9aafd);
    if n == 35 {
        assert(KEYS@[35] == 0x8866735f88d0c7a9);
    }
    assert(state_after(37) == 0x4c03c9d0aa389f42);
    if n == 36 {
        assert(KEYS@[36] == 0x42dd6500b7be047a);
    }
    assert(state_after(38) == 0x94696d872c1f8e7f);
    if n == 37 {
        assert(KEYS@[37] == 0x940f359f8c2ac763);
    }
    assert(state_after(39) == 0xb788f1980b737e58);
    if n == 38 {
        assert(KEYS@[38] == 0x314f88aa754747f8);
    }
    assert(state_after(40) == 0x99a66e96f83e19d6);
    if n == 39 {
        assert(KEYS@[39] == 0x041959c9ab9eab3e);
    }
    assert(state_after(41) == 0x798d57cb4efb62b8);
    if n == 40 {
        assert(KEYS@[40] == 0x1b04a4f3645306d8);
    }
    assert(state_after(42) == 0x45ee500c93858d8b);
    if n == 41 {
        assert(KEYS@[41] == 0x64f307879cf607bf);
    }
    assert(state_after(43) == 0x96cc9790ecde4595);
    if n == 42 {
        assert(KEYS@[42] == 0xaca23a8a0d1b82e1);
    }
    assert(state_after(44) == 0x25ee5a4dca1bc15f);
    if n == 43 {
        assert(KEYS@[43] == 0xf1c7497ac027eac3);
    }
    assert(state_after(45) == 0x75318a670ef62dd6);
    if n == 44 {
        assert(KEYS@[44] == 0xa1fddbcd97bcef3e);
    }
    assert(state_after(46) == 0x8a67d4eb8c7c5dec);
    if n == 45 {
        assert(KEYS@[45] == 0x5cde3f15babb5fbc);
    }
    assert(state_after(47) == 0xa7eafbb66d9bee7b);
    if n == 46 {
        assert(KEYS@[46] == 0x207aac55986e32ef);
    }
    assert(state_after(48) == 0x944d7f64d552d90e);
    if n == 47 {
        assert(KEYS@[47] == 0xe1b4537193abac96);
    }
    assert(state_after(49) == 0xf20204b5255f194f);
    if n == 48 {
        assert(KEYS@[48] == 0x1786a87562f310f3);
    }
    assert(state_after(50) == 0xd8d13e17082a8d3c);
    if n == 49 {
        assert(KEYS@[49] == 0x6b6dad2dc20ecbcc);
    }
    assert(state_after(51) == 0xd10e0701e09aecec);
    if n == 50 {
        assert(KEYS@[50] == 0x2ceb1c40f7a492bc);
    }
    assert(state_after(52) == 0x12221e2950c72020);
    if n == 51 {
        assert(KEYS@[51] == 0xcf4a4e757aca43a0);
    }
    assert(state_after(53) == 0x034798507ea12650);
    if n == 52 {
        assert(KEYS@[52] == 0x7bfdd88e50146710);
    }
    assert(state_after(54) == 0x50b0e1bb69bafa6d);
    if n == 53 {
        assert(KEYS@[53] == 0x41926667ad5a7759);
    }
    assert(state_after(55) == 0x3a51f271bc322f1c);
    if n == 54 {
        assert(KEYS@[54] == 0xe682e6eb282a822c);
    }
    assert(state_after(56) == 0xe76404aa0ba97ae2);
    if n == 55 {
        assert(KEYS@[55] == 0xecb98dc236a0059a);
    }
    assert(state_after(57) == 0x33e8616cd605ed20);
    if n == 56 {
        assert(KEYS@[56] == 0x9661ebe445e07ca0);
    }
    assert(state_after(58) == 0xe66aceecf1915379);
    if n == 57 {
        assert(KEYS@[57] == 0x0cba5afc6091e9b5);
    }
    assert(state_after(59) == 0x665a14d80c1cd0f4);
    if n == 58 {
        assert(KEYS@[58] == 0xbc53c9c5b2964fa4);
    }
    assert(state_after(60) == 0x94df4949a8753a5f);
    if n == 59 {
        assert(KEYS@[59] == 0xe242be0c39bf9fc3);
    }
    assert(state_after(61) == 0xeeafdbdaf114c5e8);
    if n == 60 {
        assert(KEYS@[60] == 0x6468402a5413b348);
    }
    assert(state_after(62) == 0xa038469a03b30564);
    if n == 61 {
        assert(KEYS@[61] == 0xacee2078191ef054);
    }
    assert(state_after(63) == 0x9ce663715edf520c);
    if n == 62 {
        assert(KEYS@[62] == 0x09f9fc12da30a75c);
    }
    assert(state_after(64) == 0xb23c387edc4db2ea);
    if n == 63 {
        assert(KEYS@[63] == 0x0ab43415b8f94682);
    }
    assert(state_after(65) == 0xc8805b4829ab1c16);
    if n == 64 {
        assert(KEYS@[64] == 0xbd42e57612e92c7e);
    }
    assert(state_after(66) == 0x53b6804aa5f98ebd);
    if n == 65 {
        assert(KEYS@[65] == 0xd979ff1ec83a5469);
    }
    assert(state_after(67) == 0x16f11c8235704138);
    if n == 66 {
        assert(KEYS@[66] == 0xe32f2315c1a4bb58);
    }
    assert(state_after(68) == 0x310ad5b9a409a1cc);
    if n == 67 {
        assert(KEYS@[67] == 0x8c52ba2e1bd4701c);
    }
    assert(state_after(69) == 0x18f6e2d54d4fbb9c);
    if n == 68 {
        assert(KEYS@[68] == 0x60a801cbe0cdecac);
    }
    assert(state_after(70) == 0x6e375b6868f003d2);
    if n == 69 {
        assert(KEYS@[69] == 0xa3cd25cc8114b8ca);
    }
    assert(state_after(71) == 0x558d550ecbdc2c5d);
    if n == 70 {
        assert(KEYS@[70] == 0xdea61fea94794f89);
    }
    assert(state_after(72) == 0xe2be6ce4f2fd0e8b);
    if n == 71 {
        assert(KEYS@[71] == 0x80cf4eae03dca4bf);
    }
    assert(state_after(73) == 0xe6c9235c5396494a);
    if n == 72 {
        assert(KEYS@[72] == 0x39fa648cf6832f62);
    }
    assert(state_after(74) == 0x7a0be9217b2e55e9);
    if n == 73 {
        assert(KEYS@[73] == 0x8eac512a19b5e065);
    }
    assert(state_after(75) == 0x45de3a594afead32);
    if n == 74 {
        assert(KEYS@[74] == 0x0e29ae10d975c8aa);
    }
    assert(state_after(76) == 0x3004b3b95ffc7533);
    if n == 75 {
        assert(KEYS@[75] == 0x79f4c86bff4a4dc7);
    }
    assert(state_after(77) == 0xd4cf60fd15859605);
    if n == 76 {
        assert(KEYS@[76] == 0xd2a182bb97c04f91);
    }
    assert(state_after(78) == 0xc2f6858ffc847ca8);
    if n == 77 {
        assert(KEYS@[77] == 0xde0893d2697f2708);
    }
    assert(state_after(79) == 0x0db25d8fcc300520);
    if n == 78 {
        assert(KEYS@[78] == 0xce5c19869f5d34a0);
    }
    assert(state_after(80) == 0x599b1f2d67af22ea);
    if n == 79 {
        assert(KEYS@[79] == 0x1d2f52d9e0b2f682);
    }
    assert(state_after(81) == 0x60b47420b3f7dd8c);
    if n == 80 {
        assert(KEYS@[80] == 0xf350b94d0865f4dc);
    }
    assert(state_after(82) == 0xaf5186b7f9cc36b3);
    if n == 81 {
        assert(KEYS@[81] == 0x974913e7e7deb947);
    }
    assert(state_after(83) == 0xf07e14e57d71351e);
    if n == 82 {
        assert(KEYS@[82] == 0x53af046e9b55ea66);
    }
    assert(state_after(84) == 0xf8175edf2bcd3a08);
    if n == 83 {
        assert(KEYS@[83] == 0x62ecb61d14b87ae8);
    }
    assert(state_after(85) == 0xad94a0b2c2ab9235);
    if n == 84 {
        assert(KEYS@[84] == 0xc9deecd334035101);
    }
    assert(state_after(86) == 0x5c0d7682502969b6);
    if n == 85 {
        assert(KEYS@[85] == 0xeecfdd2497bb179e);
    }
    assert(state_after(87) == 0xf678ae9db719bb4f);
    if n == 86 {
        assert(KEYS@[86] == 0x93d982565af16af3);
    }
    assert(state_after(88) == 0xd8ca4c99ef8b5a8a);
    if n == 87 {
        assert(KEYS@[87] == 0xde547120382a63a2);
    }
    assert(state_after(89) == 0xa28beb6d0968cd14);
    if n == 88 {
        assert(KEYS@[88] == 0x8e35544d3a597f44);
    }
    assert(state_after(90) == 0x05feb364306e3709);
    if n == 89 {
        assert(KEYS@[89] == 0xc53d01bca0cb0105);
    }
    assert(state_after(91) == 0x1bf2b6efac7bec70);
    if n == 90 {
        assert(KEYS@[90] == 0x8f7e4ebbd46678b0);
    }
    assert(state_after(92) == 0x92760b81104059a5);
    if n == 91 {
        assert(KEYS@[91] == 0xba2179eb214998b1);
    }
    assert(state_after(93) == 0x512f8e50cda096fd);
    if n == 92 {
        assert(KEYS@[92] == 0x04d9d84fb34583a9);
    }
    assert(state_after(94) == 0x017bc431efd4cacc);
    if n == 93 {
        assert(KEYS@[93] == 0xff457b99603d151c);
    }
    assert(state_after(95) == 0x1a2247e1e882cbd5);
    if n == 94 {
        assert(KEYS@[94] == 0xadc41609f9a3f821);
    }
    assert(state_after(96) == 0x910edd504547ebb5);
    if n == 95 {
        assert(KEYS@[95] == 0xe229cf803afcf481);
    }
    assert(state_after(97) == 0xea274adf42aae78b);
    if n == 96 {
        assert(KEYS@[96] == 0x14cdb720aae339bf);
    }
    assert(state_after(98) == 0xbdf755261bb46b11);
    if n == 97 {
        assert(KEYS@[97] == 0xaff8c1044e09cded);
    }
    assert(state_after(99) == 0x1b6f21f08a31ee2b);
    if n == 98 {
        assert(KEYS@[98] == 0xdde31777816719df);
    }
    assert(state_after(100) == 0x1e44e59b37a5fe2a);
    if n == 99 {
        assert(KEYS@[99] == 0xfa43b2dfc9f00cc2);
    }
    assert(state_after(101) == 0xb4992ccb17331fc5);
    if n == 100 {
        assert(KEYS@[100] == 0x2a31b8fcf553aa51);
    }
    assert(state_after(102) == 0x07256180d72e5cf2);
    if n == 101 {
        assert(KEYS@[101] == 0x123da8ab4a95716a);
    }
    assert(state_after(103) == 0xaabb559fb6499f4b);
    if n == 102 {
        assert(KEYS@[102] == 0xaa82e8278d7eca7f);
    }
    assert(state_after(104) == 0xff6e9bc2a661807b);
    if n == 103 {
        assert(KEYS@[103] == 0xc74af8222dd9bcef);
    }
    assert(state_after(105) == 0xa955faf2f6f4ba98);
    if n == 104 {
        assert(KEYS@[104] == 0xa68571a2deee5b38);
    }
    assert(state_after(106) == 0xf3ecd8188240d50c);
    if n == 105 {
        assert(KEYS@[105] == 0x8ceeb41d4e537e5c);
    }
    assert(state_after(107) == 0x59e4773c3d4617e1);
    if n == 106 {
        assert(KEYS@[106] == 0xc63df819f579f17d);
    }
    assert(state_after(108) == 0xaf7ce2e9a1199c09);
    if n == 107 {
        assert(KEYS@[107] == 0x87f73797f6667205);
    }
    assert(state_after(109) == 0xe0691220a2a1ca05);
    if n == 108 {
        assert(KEYS@[108] == 0x570af485dcd63391);
    }
    assert(state_after(110) == 0x83664361de638e2f);
    if n == 109 {
        assert(KEYS@[109] == 0xc33efe919fd9ae53);
    }
    assert(state_after(111) == 0x88be89c4d1af52af);
    if n == 110 {
        assert(KEYS@[110] == 0x4989b5e9fe1170d3);
    }
    assert(state_after(112) == 0xd02dc6a6fc5a9fc5);
    if n == 111 {
        assert(KEYS@[111] == 0x48b558e3044d2a51);
    }
    assert(state_after(113) == 0x250caecaefa083a5);
    if n == 112 {
        assert(KEYS@[112] == 0x8ec172a72b705ab1);
    }
    assert(state_after(114) == 0x2508e2f7f81227c6);
    if n == 113 {
        assert(KEYS@[113] == 0x4aab4853a7ec6f6e);
    }
    assert(state_after(115) == 0xd6a4692ecbe08067);
    if n == 114 {
        assert(KEYS@[114] == 0x036380fadbbb76ab);
    }
    assert(state_after(116) == 0x061b1b14446f5cff);
    if n == 115 {
        assert(KEYS@[115] == 0x988f857cd079abe3);
    }
    assert(state_after(117) == 0x4df12c985f0e8836);
    if n == 116 {
        assert(KEYS@[116] == 0x130bcc1271040c1e);
    }
    assert(state_after(118) == 0x58d8e5703197d7bb);
    if n == 117 {
        assert(KEYS@[117] == 0xb64d0d126b53df2f);
    }
    assert(state_after(119) == 0xa4104177689ce2bb);
    if n == 118 {
        assert(KEYS@[118] == 0x0261b3e8a5651e2f);
    }
    assert(state_after(120) == 0x42e5d4adc950ffc7);
    if n == 119 {
        assert(KEYS@[119] == 0x4561974c0befc48b);
    }
    assert(state_after(121) == 0xa3e6e2316f502e6a);
    if n == 120 {
        assert(KEYS@[120] == 0xddda52e21edec402);
    }
    assert(state_after(122) == 0x1d7451ea32cce65b);
    if n == 121 {
        assert(KEYS@[121] == 0xe4835474e776a74f);
    }
    assert(state_after(123) == 0x432d593263c4edd5);
    if n == 122 {
        assert(KEYS@[122] == 0x08d230f45f7bd221);
    }
    assert(state_after(124) == 0x8cc8ae555ff71903);
    if n == 123 {
        assert(KEYS@[123] == 0x2178372da9d96c57);
    }
    assert(state_after(125) == 0x33b5271528060419);
    if n == 124 {
        assert(KEYS@[124] == 0x619694e92bc40bd5);
    }
    assert(state_after(126) == 0xbd04b5580bc22d8c);
    if n == 125 {
        assert(KEYS@[125] == 0x65fcab65616104dc);
    }
    assert(state_after(127) == 0x9bb3e023743e97ae);
    if n == 126 {
        assert(KEYS@[126] == 0xf39f1c22e37064b6);
    }
    assert(state_after(128) == 0xa15648a1d2c0c2f8);
    if n == 127 {
        assert(KEYS@[127] == 0xd5a3213a10c62e18);
    }
    assert(state_after(129) == 0x2bede61dcd612de2);
    if n == 128 {
        assert(KEYS@[128] == 0x9c3ed2d741f64c9a);
    }
    assert(state_after(130) == 0xacb62321da799d79);
    if n == 129 {
        assert(KEYS@[129] == 0xa9406ce082c44bb5);
    }
    assert(state_after(131) == 0x2b6c203345e03c25);
    if n == 130 {
        assert(KEYS@[130] == 0x878beb3f48eec131);
    }
    assert(state_after(132) == 0xc9e33e2c36b3a487);
    if n == 131 {
        assert(KEYS@[131] == 0xfae6964159562e4b);
    }
    assert(state_after(133) == 0xf647419e6698ffa8);
    if n == 132 {
        assert(KEYS@[132] == 0x1ad19b1c66e8fe08);
    }
    assert(state_after(134) == 0x22b6d8c267a58ee1);
    if n == 133 {
        assert(KEYS@[133] == 0xc06f93e060056c7d);
    }
    assert(state_after(135) == 0x7d63f44935fd7c6a);
    if n == 134 {
        assert(KEYS@[134] == 0x2e7c604624d69a02);
    }
    assert(state_after(136) == 0x9186fe233bb1e59c);
    if n == 135 {
        assert(KEYS@[135] == 0xe9a006ca582eaeac);
    }
    assert(state_after(137) == 0x083ce2f0da1e00b9);
    if n == 136 {
        assert(KEYS@[136] == 0xa246a53f0111c9f5);
    }
    assert(state_after(138) == 0x75d64672fddb6ed1);
    if n == 137 {
        assert(KEYS@[137] == 0x8b2f08536fb1faad);
    }
    assert(state_after(139) == 0x58e4f27b486afd6d);
    if n == 138 {
        assert(KEYS@[138] == 0x1c25e5901de1ce59);
    }
    assert(state_after(140) == 0x303ec0c5ec0663bf);
    if n == 139 {
        assert(KEYS@[139] == 0x4f07c9d646692fa3);
    }
    assert(state_after(141) == 0x63fd72622df6ee13);
    if n == 140 {
        assert(KEYS@[140] == 0xfaf54334ad835f27);
    }
    assert(state_after(142) == 0x09ece5d6cc488b83);
    if n == 141 {
        assert(KEYS@[141] == 0x4547ea8b0cebe4d7);
    }
    assert(state_after(143) == 0x38ce33819ee23fdb);
    if n == 142 {
        assert(KEYS@[142] == 0xac937c0ad6254acf);
    }
    assert(state_after(144) == 0xfd8048dee6f2c9d2);
    if n == 143 {
        assert(KEYS@[143] == 0xf5398146b45326ca);
    }
    assert(state_after(145) == 0x4959a99ebc29940c);
    if n == 144 {
        assert(KEYS@[144] == 0x1982c0715e94215c);
    }
    assert(state_after(146) == 0x4116b8a12d1543b4);
    if n == 145 {
        assert(KEYS@[145] == 0xaef58bfe92cb0f64);
    }
    assert(state_after(147) == 0xd45ca6f5ec934f0c);
    if n == 146 {
        assert(KEYS@[146] == 0xcf65b06d04fd505c);
    }
    assert(state_after(148) == 0xab56782699028046);
    if n == 147 {
        assert(KEYS@[147] == 0x6590a0c0358cf5ee);
    }
    assert(state_after(149) == 0x296a1b64ea287c56);
    if n == 148 {
        assert(KEYS@[148] == 0x261ee4bc783453be);
    }
    assert(state_after(150) == 0xa3d0406c846ed1ce);
    if n == 149 {
        assert(KEYS@[149] == 0xf61e39cbc0949a56);
    }
    assert(state_after(151) == 0x72df30489f409ffb);
    if n == 150 {
        assert(KEYS@[150] == 0xa97c2381c751ce6f);
    }
    assert(state_after(152) == 0x05ef8f6cc238867d);
    if n == 151 {
        assert(KEYS@[151] == 0xbfa9d5231c3d2529);
    }
    assert(state_after(153) == 0x2d8638da6e33be0e);
    if n == 152 {
        assert(KEYS@[152] == 0x67ab7549a6d69d96);
    }
    assert(state_after(154) == 0x5e43ca0841ec1d44);
    if n == 153 {
        assert(KEYS@[153] == 0x14e01400a1b304b4);
    }
    assert(state_after(155) == 0x3784fe351bf7c5f8);
    if n == 154 {
        assert(KEYS@[154] == 0xef6d69401d988518);
    }
    assert(state_after(156) == 0xc276ca97be7f2b7a);
    if n == 155 {
        assert(KEYS@[155] == 0x558176cf5a683ed2);
    }
    assert(state_after(157) == 0x3454e4648d9840c8);
    if n == 156 {
        assert(KEYS@[156] == 0x47c9b721868bfea8);
    }
    assert(state_after(158) == 0x61c000146bd09a46);
    if n == 157 {
        assert(KEYS@[157] == 0xbfc498a5fb57e7ee);
    }
    assert(state_after(159) == 0x49133053d6f02c11);
    if n == 158 {
        assert(KEYS@[158] == 0x1835ce99856baaed);
    }
    assert(state_after(160) == 0x88b03bf7e3ca3fcd);
    if n == 159 {
        assert(KEYS@[159] == 0x0939d4da94793339);
    }
    assert(state_after(161) == 0x6001d8fe808f1d3e);
    if n == 160 {
        assert(KEYS@[160] == 0x9e385854949cd606);
    }
    assert(state_after(162) == 0xa61916dc5245ccdd);
    if n == 161 {
        assert(KEYS@[161] == 0x6546b6d333fefe09);
    }
    assert(state_after(163) == 0x3c6c769bb00e3b06);
    if n == 162 {
        assert(KEYS@[162] == 0x9e9fa73cfb18ddae);
    }
    assert(state_after(164) == 0x85dcda3ba82e7e87);
    if n == 163 {
        assert(KEYS@[163] == 0x7cccdc123a72e04b);
    }
    assert(state_after(165) == 0x69c3ae03f3e13db9);
    if n == 164 {
        assert(KEYS@[164] == 0xbb96ced733d8b2f5);
    }
    assert(state_after(166) == 0x1be28e3d3b8fc462);
    if n == 165 {
        assert(KEYS@[165] == 0x80b11b1df329d91a);
    }
    assert(state_after(167) == 0x305388eaee2d6102);
    if n == 166 {
        assert(KEYS@[166] == 0x70f9a870b2bab73a);
    }
    assert(state_after(168) == 0x94918ac75ab2d96d);
    if n == 167 {
        assert(KEYS@[167] == 0xbc4c512b08f1ba59);
    }
    assert(state_after(169) == 0x2b754d3e186ed52e);
    if n == 168 {
        assert(KEYS@[168] == 0x851174b993fedc36);
    }
    assert(state_after(170) == 0xfee0e4d29193ca6a);
    if n == 169 {
        assert(KEYS@[169] == 0xbafa67612e337002);
    }
    assert(state_after(171) == 0x47567f729a753c18);
    if n == 170 {
        assert(KEYS@[170] == 0xc6fb9feb764886b8);
    }
    assert(state_after(172) == 0x6d88b32e4a4aff34);
    if n == 171 {
        assert(KEYS@[171] == 0x285bdb39debecce4);
    }
    assert(state_after(173) == 0x277f3716a148b9d2);
    if n == 172 {
        assert(KEYS@[172] == 0xa030aac4403f56ca);
    }
    assert(state_after(174) == 0xecdd05a2f9821ab5);
    if n == 173 {
        assert(KEYS@[173] == 0xfe966281b4274781);
    }
    assert(state_after(175) == 0x09949376b93fec65);
    if n == 174 {
        assert(KEYS@[174] == 0x5d213c7f10ecf871);
    }
    assert(state_after(176) == 0x7688a2ce6940278c);
    if n == 175 {
        assert(KEYS@[175] == 0x6b59abcf317856dc);
    }
    assert(state_after(177) == 0xfe04873c993657e5);
    if n == 176 {
        assert(KEYS@[176] == 0xcd6216e304a4a5f1);
    }
    assert(state_after(178) == 0x17de98ff112cdb3d);
    if n == 177 {
        assert(KEYS@[177] == 0x8402eed9fc147ee9);
    }
    assert(state_after(179) == 0x3ae25e822296195f);
    if n == 178 {
        assert(KEYS@[178] == 0x579be08f83fbe2c3);
    }
    assert(state_after(180) == 0x757498c9182728c8);
    if n == 179 {
        assert(KEYS@[179] == 0x6059e804770446a8);
    }
    assert(state_after(181) == 0x745aa2db6be2f006);
    if n == 180 {
        assert(KEYS@[180] == 0xcfa616333e725eae);
    }
    assert(state_after(182) == 0x96d14fffce7db38b);
    if n == 181 {
        assert(KEYS@[181] == 0xb833fa678be055bf);
    }
    assert(state_after(183) == 0x40bb204b86e55c22);
    if n == 182 {
        assert(KEYS@[182] == 0x91752375a4dcc9da);
    }
    assert(state_after(184) == 0xb3bb918b1b2f01da);
    if n == 183 {
        assert(KEYS@[183] == 0xd21d611ab6e467b2);
    }
    assert(state_after(185) == 0xd7b7974ea16c59a0);
    if n == 184 {
        assert(KEYS@[184] == 0x0252d24102254720);
    }
    assert(state_after(186) == 0xb811e0be1dba5a46);
    if n == 185 {
        assert(KEYS@[185] == 0xabe17b52ed92a7ee);
    }
    assert(state_after(187) == 0xf836d6bcd6815599);
    if n == 186 {
        assert(KEYS@[186] == 0x478810354717c755);
    }
    assert(state_after(188) == 0x5b43cda1cd3588d8);
    if n == 187 {
        assert(KEYS@[187] == 0xe9c173a3d952f878);
    }
    assert(state_after(189) == 0x61682b263a2c3ec2);
    if n == 188 {
        assert(KEYS@[188] == 0x094b8977210895fa);
    }
    assert(state_after(190) == 0x287ea299859bcf90);
    if n == 189 {
        assert(KEYS@[189] == 0xd29c3714a595d350);
    }
    assert(state_after(191) == 0xcf2422461087ddd2);
    if n == 190 {
        assert(KEYS@[190] == 0xbd5210ec8c7a6aca);
    }
}

/// The key of content `c` on square `s`.
pub(crate) fn key_of(s: usize, c: Cell) -> (r: u64)
    requires
        s < 36,
    ensures
        r == piece_key(s as int, c),
{
    let p: usize = match c {
        Cell::Empty => 0,
        Cell::WhiteBarrel => 1,
        Cell::BlackBarrel => 2,
        Cell::WhitePail => 3,
        Cell::BlackPail => 4,
    };
    proof {
        lemma_keys(s * 5 + p);
    }
    KEYS[s * 5 + p]
}

/// The key toggled when the side to move changes.
pub(crate) fn key_of_side() -> (r: u64)
    ensures
        r == side_key(),
{
    proof {
        lemma_keys(180);
    }
    KEYS[PLAYER_KEY_AT]
}

/// The key of `count` barrels in hand, for white (0) or black (1).
pub fn zobrist_off_board_key(player: usize, count: usize) -> (r: u64)
    requires
        player < 2,
        count < 5,
    ensures
        r == off_board_key(player as int, count as int),
{
    proof {
        lemma_keys(181 + player * 5 + count);
    }
    KEYS[OFF_BOARD_AT + player * 5 + count]
}

/// Two different numbers of barrels in hand have different keys, so changing
/// only that number changes the hash.
pub proof fn law_off_board_keys_differ(player: int, a: int, b: int)
    requires
        0 <= player < 2,
        0 <= a < 5,
        0 <= b < 5,
        a != b,
    ensures
        off_board_key(player, a) != off_board_key(player, b),
{
    lemma_keys(181 + player * 5 + a);
    lemma_keys(181 + player * 5 + b);
    assert(player == 0 || player == 1);
    assert(a == 0 || a == 1 || a == 2 || a == 3 || a == 4);
    assert(b == 0 || b == 1 || b == 2 || b == 3 || b == 4);
}

/// Two different contents of a square have different keys, so changing one square
/// changes the hash.
#[verifier::spinoff_prover]
pub proof fn law_piece_keys_differ(s: int, a: Cell, b: Cell)
    requires
        0 <= s < 36,
        a != b,
    ensures
        piece_key(s, a) != piece_key(s, b),
{
    lemma_keys(s * 5 + piece_index(a));
    lemma_keys(s * 5 + piece_index(b));
    lemma_square_keys(s);
}

#[verifier::spinoff_prover]
proof fn lemma_square_keys(s: int)
    requires
        0 <= s < 36,
    ensures
        KEYS@[s * 5] != KEYS@[s * 5 + 1],
        KEYS@[s * 5] != KEYS@[s * 5 + 2],
        KEYS@[s * 5] != KEYS@[s * 5 + 3],
        KEYS@[s * 5] != KEYS@[s * 5 + 4],
        KEYS@[s * 5 + 1] != KEYS@[s * 5 + 2],
        KEYS@[s * 5 + 1] != KEYS@[s * 5 + 3],
        KEYS@[s * 5 + 1] != KEYS@[s * 5 + 4],
        KEYS@[s * 5 + 2] != KEYS@[s * 5 + 3],
        KEYS@[s * 5 + 2] != KEYS@[s * 5 + 4],
        KEYS@[s * 5 + 3] != KEYS@[s * 5 + 4],
{
    if s == 0 {
        assert(KEYS@[0] == 0xb7fb0288c5ee4339 && KEYS@[1] == 0x42fef730e71e2254 && KEYS@[2] == 0x835d6ba41ba14966 && KEYS@[3] == 0x167e48ff294127de && KEYS@[4] == 0x142402fc43cea75d);
    }
    if s == 1 {
        assert(KEYS@[5] == 0x740af7202526d05d && KEYS@[6] == 0x04f9767cba9ceef5 && KEYS@[7] == 0x4556e11e43aad6f0 && KEYS@[8] == 0xdf9d0020dc3e0fba && KEYS@[9] == 0x02e9d501f9487ae6);
    }
    if s == 2 {
        assert(KEYS@[10] == 0x140b016bf26382b4 && KEYS@[11] == 0xdc43479ac37a7e80 && KEYS@[12] == 0x2796987528c98aba && KEYS@[13] == 0x6f8d1fd27a78ad35 && KEYS@[14] == 0x108ff78d8077a623);
    }
    if s == 3 {
        assert(KEYS@[15] == 0x95179b0d1eb1af39 && KEYS@[16] == 0x9557b13ff99b2fdb && KEYS@[17] == 0x5835751a420ac04b && KEYS@[18] == 0x07c28b64a6cd5638 && KEYS@[19] == 0x96f2eaa3ecebc3ab);
    }
    if s == 4 {
        assert(KEYS@[20] == 0xb5f597e09b471dd0 && KEYS@[21] == 0x17dd13935aae9a39 && KEYS@[22] == 0x6b36feb0caf7a721 && KEYS@[23] == 0xdcff391bebd5410b && KEYS@[24] == 0xa600e327de6383e7);
    }
    if s == 5 {
        assert(KEYS@[25] == 0xbfd90323215c4f36 && KEYS@[26] == 0x8763d2f098762a5e && KEYS@[27] == 0xce2ebce68b8ac074 && KEYS@[28] == 0x90e01b5fa3810af1 && KEYS@[29] == 0xac188b76666ae3fa);
    }
    if s == 6 {
        assert(KEYS@[30] == 0x3f7ab1c6aac4ca6e && KEYS@[31] == 0xb77fe237b89bac3a && KEYS@[32] == 0x20205f161900d903 && KEYS@[33] == 0xbe227748c589cf81 && KEYS@[34] == 0xa70c76922ed66040);
    }
    if s == 7 {
        assert(KEYS@[35] == 0x8866735f88d0c7a9 && KEYS@[36] == 0x42dd6500b7be047a && KEYS@[37] == 0x940f359f8c2ac763 && KEYS@[38] == 0x314f88aa754747f8 && KEYS@[39] == 0x041959c9ab9eab3e);
    }
    if s == 8 {
        assert(KEYS@[40] == 0x1b04a4f3645306d8 && KEYS@[41] == 0x64f307879cf607bf && KEYS@[42] == 0xaca23a8a0d1b82e1 && KEYS@[43] == 0xf1c7497ac027eac3 && KEYS@[44] == 0xa1fddbcd97bcef3e);
    }
    if s == 9 {
        assert(KEYS@[45] == 0x5cde3f15babb5fbc && KEYS@[46] == 0x207aac55986e32ef && KEYS@[47] == 0xe1b4537193abac96 && KEYS@[48] == 0x1786a87562f310f3 && KEYS@[49] == 0x6b6dad2dc20ecbcc);
    }
    if s == 10 {
        assert(KEYS@[50] == 0x2ceb1c40f7a492bc && KEYS@[51] == 0xcf4a4e757aca43a0 && KEYS@[52] == 0x7bfdd88e50146710 && KEYS@[53] == 0x41926667ad5a7759 && KEYS@[54] == 0xe682e6eb282a822c);
    }
    if s == 11 {
        assert(KEYS@[55] == 0xecb98dc236a0059a && KEYS@[56] == 0x9661ebe445e07ca0 && KEYS@[57] == 0x0cba5afc6091e9b5 && KEYS@[58] == 0xbc53c9c5b2964fa4 && KEYS@[59] == 0xe242be0c39bf9fc3);
    }
    if s == 12 {
        assert(KEYS@[60] == 0x6468402a5413b348 && KEYS@[61] == 0xacee2078191ef054 && KEYS@[62] == 0x09f9fc12da30a75c && KEYS@[63] == 0x0ab43415b8f94682 && KEYS@[64] == 0xbd42e57612e92c7e);
    }
    if s == 13 {
        assert(KEYS@[65] == 0xd979ff1ec83a5469 && KEYS@[66] == 0xe32f2315c1a4bb58 && KEYS@[67] == 0x8c52ba2e1bd4701c && KEYS@[68] == 0x60a801cbe0cdecac && KEYS@[69] == 0xa3cd25cc8114b8ca);
    }
    if s == 14 {
        assert(KEYS@[70] == 0xdea61fea94794f89 && KEYS@[71] == 0x80cf4eae03dca4bf && KEYS@[72] == 0x39fa648cf6832f62 && KEYS@[73] == 0x8eac512a19b5e065 && KEYS@[74] == 0x0e29ae10d975c8aa);
    }
    if s == 15 {
        assert(KEYS@[75] == 0x79f4c86bff4a4dc7 && KEYS@[76] == 0xd2a182bb97c04f91 && KEYS@[77] == 0xde0893d2697f2708 && KEYS@[78] == 0xce5c19869f5d34a0 && KEYS@[79] == 0x1d2f52d9e0b2f682);
    }
    if s == 16 {
        assert(KEYS@[80] == 0xf350b94d0865f4dc && KEYS@[81] == 0x974913e7e7deb947 && KEYS@[82] == 0x53af046e9b55ea66 && KEYS@[83] == 0x62ecb61d14b87ae8 && KEYS@[84] == 0xc9deecd334035101);
    }
    if s == 17 {
        assert(KEYS@[85] == 0xeecfdd2497bb179e && KEYS@[86] == 0x93d982565af16af3 && KEYS@[87] == 0xde547120382a63a2 && KEYS@[88] == 0x8e35544d3a597f44 && KEYS@[89] == 0xc53d01bca0cb0105);
    }
    if s == 18 {
        assert(KEYS@[90] == 0x8f7e4ebbd46678b0 && KEYS@[91] == 0xba2179eb214998b1 && KEYS@[92] == 0x04d9d84fb34583a9 && KEYS@[93] == 0xff457b99603d151c && KEYS@[94] == 0xadc41609f9a3f821);
    }
    if s == 19 {
        assert(KEYS@[95] == 0xe229cf803afcf481 && KEYS@[96] == 0x14cdb720aae339bf && KEYS@[97] == 0xaff8c1044e09cded && KEYS@[98] == 0xdde31777816719df && KEYS@[99] == 0xfa43b2dfc9f00cc2);
    }
    if s == 20 {
        assert(KEYS@[100] == 0x2a31b8fcf553aa51 && KEYS@[101] == 0x123da8ab4a95716a && KEYS@[102] == 0xaa82e8278d7eca7f && KEYS@[103] == 0xc74af8222dd9bcef && KEYS@[104] == 0xa68571a2deee5b38);
    }
    if s == 21 {
        assert(KEYS@[105] == 0x8ceeb41d4e537e5c && KEYS@[106] == 0xc63df819f579f17d && KEYS@[107] == 0x87f73797f6667205 && KEYS@[108] == 0x570af485dcd63391 && KEYS@[109] == 0xc33efe919fd9ae53);
    }
    if s == 22 {
        assert(KEYS@[110] == 0x4989b5e9fe1170d3 && KEYS@[111] == 0x48b558e3044d2a51 && KEYS@[112] == 0x8ec172a72b705ab1 && KEYS@[113] == 0x4aab4853a7ec6f6e && KEYS@[114] == 0x036380fadbbb76ab);
    }
    if s == 23 {
        assert(KEYS@[115] == 0x988f857cd079abe3 && KEYS@[116] == 0x130bcc1271040c1e && KEYS@[117] == 0xb64d0d126b53df2f && KEYS@[118] == 0x0261b3e8a5651e2f && KEYS@[119] == 0x4561974c0befc48b);
    }
    if s == 24 {
        assert(KEYS@[120] == 0xddda52e21edec402 && KEYS@[121] == 0xe4835474e776a74f && KEYS@[122] == 0x08d230f45f7bd221 && KEYS@[123] == 0x2178372da9d96c57 && KEYS@[124] == 0x619694e92bc40bd5);
    }
    if s == 25 {
        assert(KEYS@[125] == 0x65fcab65616104dc && KEYS@[126] == 0xf39f1c22e37064b6 && KEYS@[127] == 0xd5a3213a10c62e18 && KEYS@[128] == 0x9c3ed2d741f64c9a && KEYS@[129] == 0xa9406ce082c44bb5);
    }
    if s == 26 {
        assert(KEYS@[130] == 0x878beb3f48eec131 && KEYS@[131] == 0xfae6964159562e4b && KEYS@[132] == 0x1ad19b1c66e8fe08 && KEYS@[133] == 0xc06f93e060056c7d && KEYS@[134] == 0x2e7c604624d69a02);
    }
    if s == 27 {
        assert(KEYS@[135] == 0xe9a006ca582eaeac && KEYS@[136] == 0xa246a53f0111c9f5 && KEYS@[137] == 0x8b2f08536fb1faad && KEYS@[138] == 0x1c25e5901de1ce59 && KEYS@[139] == 0x4f07c9d646692fa3);
    }
    if s == 28 {
        assert(KEYS@[140] == 0xfaf54334ad835f27 && KEYS@[141] == 0x4547ea8b0cebe4d7 && KEYS@[142] == 0xac937c0ad6254acf && KEYS@[143] == 0xf5398146b45326ca && KEYS@[144] == 0x1982c0715e94215c);
    }
    if s == 29 {
        assert(KEYS@[145] == 0xaef58bfe92cb0f64 && KEYS@[146] == 0xcf65b06d04fd505c && KEYS@[147] == 0x6590a0c0358cf5ee && KEYS@[148] == 0x261ee4bc783453be && KEYS@[149] == 0xf61e39cbc0949a56);
    }
    if s == 30 {
        assert(KEYS@[150] == 0xa97c2381c751ce6f && KEYS@[151] == 0xbfa9d5231c3d2529 && KEYS@[152] == 0x67ab7549a6d69d96 && KEYS@[153] == 0x14e01400a1b304b4 && KEYS@[154] == 0xef6d69401d988518);
    }
    if s == 31 {
        assert(KEYS@[155] == 0x558176cf5a683ed2 && KEYS@[156] == 0x47c9b721868bfea8 && KEYS@[157] == 0xbfc498a5fb57e7ee && KEYS@[158] == 0x1835ce99856baaed && KEYS@[159] == 0x0939d4da94793339);
    }
    if s == 32 {
        assert(KEYS@[160] == 0x9e385854949cd606 && KEYS@[161] == 0x6546b6d333fefe09 && KEYS@[162] == 0x9e9fa73cfb18ddae && KEYS@[163] == 0x7cccdc123a72e04b && KEYS@[164] == 0xbb96ced733d8b2f5);
    }
    if s == 33 {
        assert(KEYS@[165] == 0x80b11b1df329d91a && KEYS@[166] == 0x70f9a870b2bab73a && KEYS@[167] == 0xbc4c512b08f1ba59 && KEYS@[168] == 0x851174b993fedc36 && KEYS@[169] == 0xbafa67612e337002);
    }
    if s == 34 {
        assert(KEYS@[170] == 0xc6fb9feb764886b8 && KEYS@[171] == 0x285bdb39debecce4 && KEYS@[172] == 0xa030aac4403f56ca && KEYS@[173] == 0xfe966281b4274781 && KEYS@[174] == 0x5d213c7f10ecf871);
    }
    if s == 35 {
        assert(KEYS@[175] == 0x6b59abcf317856dc && KEYS@[176] == 0xcd6216e304a4a5f1 && KEYS@[177] == 0x8402eed9fc147ee9 && KEYS@[178] == 0x579be08f83fbe2c3 && KEYS@[179] == 0x6059e804770446a8);
    }
}

/// The key of the side to move is not zero, so passing the turn changes the hash.
pub proof fn law_the_side_has_a_key()
    ensures
        side_key() != 0,
{
    lemma_keys(180);
    assert(KEYS@[180] == 0xcfa616333e725eae);
}

} // verus!
