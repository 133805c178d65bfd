//! The parameters of the curves over the extensions of degree seven.
use vstd::prelude::*;

verus! {

/// The parameters of one curve. The extension is by a root of `z^7 - m z - c`, and the curve is
/// `y^2 = x^3 + a x + b z^k`.
pub trait SepticCurveParams {
    /// The coefficients of the polynomial without its leading one, from the constant.
    spec fn poly_coeffs_seq() -> Seq<i32>;

    spec fn curve_a_int() -> int;

    spec fn curve_b_const_int() -> int;

    spec fn curve_b_z_index_int() -> int;

    spec fn curve_witness_dummy_point_x_seq() -> Seq<u32>;

    spec fn curve_witness_dummy_point_y_seq() -> Seq<u32>;

    spec fn curve_cumulative_sum_start_x_seq() -> Seq<u32>;

    spec fn curve_cumulative_sum_start_y_seq() -> Seq<u32>;

    spec fn digest_sum_start_x_seq() -> Seq<u32>;

    spec fn digest_sum_start_y_seq() -> Seq<u32>;

    spec fn name_seq() -> Seq<char>;

    /// The coefficients of the polynomial without its leading one, from the constant.
    fn poly_coeffs() -> (r: [i32; 7])
        ensures
            r@ == Self::poly_coeffs_seq(),
    ;

    fn curve_a() -> (r: u16)
        ensures
            r as int == Self::curve_a_int(),
    ;

    fn curve_b_const() -> (r: u32)
        ensures
            r as int == Self::curve_b_const_int(),
    ;

    fn curve_b_z_index() -> (r: usize)
        ensures
            r as int == Self::curve_b_z_index_int(),
    ;

    /// The x-coordinate of the point that stands in for padding interactions.
    fn curve_witness_dummy_point_x() -> (r: [u32; 7])
        ensures
            r@ == Self::curve_witness_dummy_point_x_seq(),
    ;

    /// The y-coordinate of the point that stands in for padding interactions.
    fn curve_witness_dummy_point_y() -> (r: [u32; 7])
        ensures
            r@ == Self::curve_witness_dummy_point_y_seq(),
    ;

    /// The x-coordinate of the point at which a cumulative sum starts.
    fn curve_cumulative_sum_start_x() -> (r: [u32; 7])
        ensures
            r@ == Self::curve_cumulative_sum_start_x_seq(),
    ;

    /// The y-coordinate of the point at which a cumulative sum starts.
    fn curve_cumulative_sum_start_y() -> (r: [u32; 7])
        ensures
            r@ == Self::curve_cumulative_sum_start_y_seq(),
    ;

    /// The x-coordinate of the point at which a sum of digests starts.
    fn digest_sum_start_x() -> (r: [u32; 7])
        ensures
            r@ == Self::digest_sum_start_x_seq(),
    ;

    /// The y-coordinate of the point at which a sum of digests starts.
    fn digest_sum_start_y() -> (r: [u32; 7])
        ensures
            r@ == Self::digest_sum_start_y_seq(),
    ;

    fn name() -> (r: &'static str)
        ensures
            r@ == Self::name_seq(),
    ;
}

/// The curve over the extension of BabyBear by a root of `z^7 - 2 z - 5`.
pub struct BabyBearCurveParams;

impl SepticCurveParams for BabyBearCurveParams {
    open spec fn poly_coeffs_seq() -> Seq<i32> {
        seq![-5i32, -2i32, 0i32, 0i32, 0i32, 0i32, 0i32]
    }

    open spec fn curve_a_int() -> int {
        2
    }

    open spec fn curve_b_const_int() -> int {
        26
    }

    open spec fn curve_b_z_index_int() -> int {
        5
    }

    open spec fn curve_witness_dummy_point_x_seq() -> Seq<u32> {
        seq![0x2738281u32, 0x8284590u32, 0x4523536u32, 0x0287471u32, 0x3526624u32, 0x9775724u32, 0x7093699u32]
    }

    open spec fn curve_witness_dummy_point_y_seq() -> Seq<u32> {
        seq![48041908u32, 550064556u32, 415267377u32, 1726976249u32, 1253299140u32, 209439863u32, 1302309485u32]
    }

    open spec fn curve_cumulative_sum_start_x_seq() -> Seq<u32> {
        seq![0x1434213u32, 0x5623730u32, 0x9504880u32, 0x1688724u32, 0x2096980u32, 0x7856967u32, 0x1875376u32]
    }

    open spec fn curve_cumulative_sum_start_y_seq() -> Seq<u32> {
        seq![885797405u32, 1130275556u32, 567836311u32, 52700240u32, 239639200u32, 442612155u32, 1839439733u32]
    }

    open spec fn digest_sum_start_x_seq() -> Seq<u32> {
        seq![0x1742050u32, 0x8075688u32, 0x7729352u32, 0x7446341u32, 0x5058723u32, 0x6694280u32, 0x5253810u32]
    }

    open spec fn digest_sum_start_y_seq() -> Seq<u32> {
        seq![462194069u32, 1842131493u32, 281651264u32, 1684885851u32, 483907222u32, 1097389352u32, 1648978901u32]
    }

    open spec fn name_seq() -> Seq<char> {
        "BabyBear"@
    }

    fn poly_coeffs() -> (r: [i32; 7]) {
        let r: [i32; 7] = [-5, -2, 0, 0, 0, 0, 0];
        assert(r@ =~= Self::poly_coeffs_seq());
        r
    }

    fn curve_a() -> (r: u16) {
        2
    }

    fn curve_b_const() -> (r: u32) {
        26
    }

    fn curve_b_z_index() -> (r: usize) {
        5
    }

    fn curve_witness_dummy_point_x() -> (r: [u32; 7]) {
        let r: [u32; 7] = [0x2738281, 0x8284590, 0x4523536, 0x0287471, 0x3526624, 0x9775724, 0x7093699];
        assert(r@ =~= Self::curve_witness_dummy_point_x_seq());
        r
    }

    fn curve_witness_dummy_point_y() -> (r: [u32; 7]) {
        let r: [u32; 7] = [48041908, 550064556, 415267377, 1726976249, 1253299140, 209439863, 1302309485];
        assert(r@ =~= Self::curve_witness_dummy_point_y_seq());
        r
    }

    fn curve_cumulative_sum_start_x() -> (r: [u32; 7]) {
        let r: [u32; 7] = [0x1434213, 0x5623730, 0x9504880, 0x1688724, 0x2096980, 0x7856967, 0x1875376];
        assert(r@ =~= Self::curve_cumulative_sum_start_x_seq());
        r
    }

    fn curve_cumulative_sum_start_y() -> (r: [u32; 7]) {
        let r: [u32; 7] = [885797405, 1130275556, 567836311, 52700240, 239639200, 442612155, 1839439733];
        assert(r@ =~= Self::curve_cumulative_sum_start_y_seq());
        r
    }

    fn digest_sum_start_x() -> (r: [u32; 7]) {
        let r: [u32; 7] = [0x1742050, 0x8075688, 0x7729352, 0x7446341, 0x5058723, 0x6694280, 0x5253810];
        assert(r@ =~= Self::digest_sum_start_x_seq());
        r
    }

    fn digest_sum_start_y() -> (r: [u32; 7]) {
        let r: [u32; 7] = [462194069, 1842131493, 281651264, 1684885851, 483907222, 1097389352, 1648978901];
        assert(r@ =~= Self::digest_sum_start_y_seq());
        r
    }

    fn name() -> (r: &'static str) {
        "BabyBear"
    }
}

/// The curve over the extension of KoalaBear by a root of `z^7 - 3 z - 5`.
pub struct KoalaBearCurveParams;

impl SepticCurveParams for KoalaBearCurveParams {
    open spec fn poly_coeffs_seq() -> Seq<i32> {
        seq![-5i32, -3i32, 0i32, 0i32, 0i32, 0i32, 0i32]
    }

    open spec fn curve_a_int() -> int {
        45
    }

    open spec fn curve_b_const_int() -> int {
        41
    }

    open spec fn curve_b_z_index_int() -> int {
        3
    }

    open spec fn curve_witness_dummy_point_x_seq() -> Seq<u32> {
        seq![0x3718281u32, 0x8284590u32, 0x4523536u32, 0x0287471u32, 0x3526624u32, 0x9775724u32, 0x7093699u32]
    }

    open spec fn curve_witness_dummy_point_y_seq() -> Seq<u32> {
        seq![1250555984u32, 1592495468u32, 656721246u32, 420301347u32, 2125819749u32, 819876460u32, 17687681u32]
    }

    open spec fn curve_cumulative_sum_start_x_seq() -> Seq<u32> {
        seq![0x1414213u32, 0x5623730u32, 0x9504880u32, 0x1688724u32, 0x2096980u32, 0x7856967u32, 0x1875376u32]
    }

    open spec fn curve_cumulative_sum_start_y_seq() -> Seq<u32> {
        seq![2020310104u32, 1513506566u32, 1843922297u32, 2003644209u32, 805967281u32, 1882435203u32, 1623804682u32]
    }

    open spec fn digest_sum_start_x_seq() -> Seq<u32> {
        seq![0x1732050u32, 0x8075688u32, 0x7729352u32, 0x7446341u32, 0x5058723u32, 0x6694280u32, 0x5253810u32]
    }

    open spec fn digest_sum_start_y_seq() -> Seq<u32> {
        seq![1095433104u32, 7540207u32, 1124564165u32, 2035506693u32, 11121645u32, 102781365u32, 398772161u32]
    }

    open spec fn name_seq() -> Seq<char> {
        "KoalaBear"@
    }

    fn poly_coeffs() -> (r: [i32; 7]) {
        let r: [i32; 7] = [-5, -3, 0, 0, 0, 0, 0];
        assert(r@ =~= Self::poly_coeffs_seq());
        r
    }

    fn curve_a() -> (r: u16) {
        45
    }

    fn curve_b_const() -> (r: u32) {
        41
    }

    fn curve_b_z_index() -> (r: usize) {
        3
    }

    fn curve_witness_dummy_point_x() -> (r: [u32; 7]) {
        let r: [u32; 7] = [0x3718281, 0x8284590, 0x4523536, 0x0287471, 0x3526624, 0x9775724, 0x7093699];
        assert(r@ =~= Self::curve_witness_dummy_point_x_seq());
        r
    }

    fn curve_witness_dummy_point_y() -> (r: [u32; 7]) {
        let r: [u32; 7] = [1250555984, 1592495468, 656721246, 420301347, 2125819749, 819876460, 17687681];
        assert(r@ =~= Self::curve_witness_dummy_point_y_seq());
        r
    }

    fn curve_cumulative_sum_start_x() -> (r: [u32; 7]) {
        let r: [u32; 7] = [0x1414213, 0x5623730, 0x9504880, 0x1688724, 0x2096980, 0x7856967, 0x1875376];
        assert(r@ =~= Self::curve_cumulative_sum_start_x_seq());
        r
    }

    fn curve_cumulative_sum_start_y() -> (r: [u32; 7]) {
        let r: [u32; 7] = [2020310104, 1513506566, 1843922297, 2003644209, 805967281, 1882435203, 1623804682];
        assert(r@ =~= Self::curve_cumulative_sum_start_y_seq());
        r
    }

    fn digest_sum_start_x() -> (r: [u32; 7]) {
        let r: [u32; 7] = [0x1732050, 0x8075688, 0x7729352, 0x7446341, 0x5058723, 0x6694280, 0x5253810];
        assert(r@ =~= Self::digest_sum_start_x_seq());
        r
    }

    fn digest_sum_start_y() -> (r: [u32; 7]) {
        let r: [u32; 7] = [1095433104, 7540207, 1124564165, 2035506693, 11121645, 102781365, 398772161];
        assert(r@ =~= Self::digest_sum_start_y_seq());
        r
    }

    fn name() -> (r: &'static str) {
        "KoalaBear"
    }
}

} // verus!
