//! Quantised weights of one layer, their calibration, and the reports on a quantised model.

use crate::awq;
use crate::calib::HessianKind;
use crate::codes::QBits;
use crate::float_bits;
use crate::gptq;
use crate::gptq::GptqOpts;
use crate::qmatrix::QMatrix;
use crate::quant::QAxis;
use crate::sparse::Ratio;
use crate::text;
use vstd::prelude::*;

verus! {

/// The quantisation algorithms.
#[derive(Clone, Copy, Debug, PartialEq, Eq, Structural)]
pub enum QuantMethod {
    /// Every weight is rounded on its own.
    Rtn,
    /// Rounding errors are spread over the channels still to come.
    Gptq,
    /// Channels are scaled by their activity first.
    Awq,
}

impl QuantMethod {
    /// The short name.
    pub open spec fn title(self) -> Seq<char> {
        match self {
            QuantMethod::Rtn => "rtn"@,
            QuantMethod::Gptq => "gptq"@,
            QuantMethod::Awq => "awq"@,
        }
    }

    pub fn name(self) -> (r: &'static str)
        ensures
            r@ == self.title(),
    {
        match self {
            QuantMethod::Rtn => "rtn",
            QuantMethod::Gptq => "gptq",
            QuantMethod::Awq => "awq",
        }
    }

    /// One line on what the method does.
    pub open spec fn summary(self) -> Seq<char> {
        match self {
            QuantMethod::Rtn =>
                "逐列独立四舍五入，列与列之间不共享任何信息（无需校准数据）"@,
            QuantMethod::Gptq =>
                "用 XᵀX 的逆把每个输入通道的量化误差按相关性分摊给后面未量化的通道，逐通道最小化加权误差"@,
            QuantMethod::Awq =>
                "按激活幅度缩放输入通道（组内几何均值归一），让重要通道落到更细的量化格点上"@,
        }
    }

    pub fn describe(self) -> (r: &'static str)
        ensures
            r@ == self.summary(),
    {
        match self {
            QuantMethod::Rtn =>
                "逐列独立四舍五入，列与列之间不共享任何信息（无需校准数据）",
            QuantMethod::Gptq =>
                "用 XᵀX 的逆把每个输入通道的量化误差按相关性分摊给后面未量化的通道，逐通道最小化加权误差",
            QuantMethod::Awq =>
                "按激活幅度缩放输入通道（组内几何均值归一），让重要通道落到更细的量化格点上",
        }
    }

    /// Whether the method needs calibration data: all but plain rounding do.
    pub fn needs_calib(self) -> (r: bool)
        ensures
            r == (self != QuantMethod::Rtn),
    {
        match self {
            QuantMethod::Rtn => false,
            _ => true,
        }
    }
}

/// Options of a quantisation run.
#[derive(Clone, Copy, Debug)]
pub struct QuantOpts {
    /// Which weights share a scale.
    pub axis: QAxis,
    pub gptq: GptqOpts,
    /// The scaling exponent; without one it is searched for each layer.
    pub awq_alpha: Option<u32>,
}

impl Default for QuantOpts {
    fn default() -> (o: Self)
        ensures
            o.axis == QAxis::Col,
            o.awq_alpha == None::<u32>,
            o.gptq == (GptqOpts {
                act_order: true,
                damp: gptq::GPTQ_DAMP,
                block: gptq::GPTQ_BLOCK,
            }),
    {
        QuantOpts { axis: QAxis::Col, gptq: GptqOpts::default(), awq_alpha: None }
    }
}

/// The quantised form of one weight matrix.
#[derive(Clone, Debug)]
pub struct QuantWeight {
    pub q: QMatrix,
    /// Divides the input channel by channel before the product.
    pub input_scale: Option<Vec<u32>>,
    /// The method that was really applied.
    pub method: QuantMethod,
}

impl QuantWeight {
    /// The input scales, if there are any.
    pub open spec fn scales(&self) -> Option<Seq<u32>> {
        match self.input_scale {
            Some(s) => Some(s@),
            None => None,
        }
    }

    pub open spec fn wf(&self) -> bool {
        &&& self.q.wf()
        &&& self.scales() matches Some(s) ==> s.len() == self.q.row_count()
    }

    /// The weights in the coordinates of the unscaled input.
    pub open spec fn equivalent(&self) -> Seq<u32> {
        match self.scales() {
            Some(s) => awq::unfolded(self.q.values(), self.q.col_count(), s),
            None => self.q.values(),
        }
    }

    /// Bytes of codes, scales and input scales.
    pub open spec fn size(&self) -> int {
        self.q.size() + match self.scales() {
            Some(s) => 4 * s.len() as int,
            None => 0,
        }
    }

    pub fn new(q: QMatrix, method: QuantMethod) -> (r: Self)
        ensures
            r.q == q,
            r.scales() == None::<Seq<u32>>,
            r.method == method,
    {
        QuantWeight { q, input_scale: None, method }
    }

    pub fn with_input_scale(q: QMatrix, s: Vec<u32>) -> (r: Self)
        ensures
            r.q == q,
            r.scales() == Some(s@),
            r.method == QuantMethod::Awq,
    {
        QuantWeight { q, input_scale: Some(s), method: QuantMethod::Awq }
    }

    /// Bytes taken by this form.
    pub fn byte_len(&self) -> (n: usize)
        requires
            self.wf(),
            self.size() <= usize::MAX,
        ensures
            n == self.size(),
    {
        let own: usize = self.q.byte_len();
        match &self.input_scale {
            Some(s) => own + s.len() * 4,
            None => own,
        }
    }

    /// The weights in the coordinates of the unscaled input.
    pub fn weights(&self) -> (w: Vec<u32>)
        requires
            self.wf(),
        ensures
            w@ == self.equivalent(),
    {
        proof {
            self.q.shape();
        }
        let folded: Vec<u32> = self.q.dequantize();
        match &self.input_scale {
            Some(s) => awq::awq_unfold_weight(&folded, self.q.rows(), self.q.cols(), s),
            None => folded,
        }
    }
}

/// Calibration of one layer.
#[derive(Clone, Debug)]
pub struct LayerCalib {
    /// Second moments of the input channels.
    pub hessian: Option<HessianKind>,
    /// Mean magnitude of every input channel.
    pub act_abs_mean: Option<Vec<u32>>,
    /// Tokens that were observed.
    pub n_tokens: usize,
}

impl LayerCalib {
    /// Whether the second moments, where there are any, are those of a square.
    pub open spec fn wf(&self) -> bool {
        self.hessian matches Some(h) ==> h.wf()
    }

    /// Whether the activations were collected and fit the input width.
    pub open spec fn measures(&self, rows: int) -> bool {
        match self.act_abs_mean {
            Some(a) => a@.len() == rows,
            None => false,
        }
    }
}

/// Calibration of a model, by layer name.
#[derive(Clone, Debug)]
pub struct CalibStats {
    pub per_layer: Vec<(String, LayerCalib)>,
}

impl CalibStats {
    /// The calibration of the first layer under this name, from position `i` on.
    pub open spec fn lookup_from(&self, key: Seq<char>, i: int) -> Option<LayerCalib>
        decreases self.per_layer@.len() - i,
    {
        if i < 0 || i >= self.per_layer@.len() {
            None
        } else if self.per_layer@[i].0@ == key {
            Some(self.per_layer@[i].1)
        } else {
            self.lookup_from(key, i + 1)
        }
    }

    /// The calibration of the first layer under this name.
    pub open spec fn lookup(&self, key: Seq<char>) -> Option<LayerCalib> {
        self.lookup_from(key, 0)
    }

    /// The calibration of the first layer under this name.
    pub fn get(&self, key: &str) -> (r: Option<&LayerCalib>)
        ensures
            given(r) == self.lookup(key@),
    {
        for i in 0..self.per_layer.len()
            invariant
                self.lookup(key@) == self.lookup_from(key@, i as int),
        {
            let entry: &(String, LayerCalib) = &self.per_layer[i];
            if text::same_text(entry.0.as_str(), key) {
                return Some(&entry.1);
            }
        }
        None
    }
}

/// The statistics behind a reference.
pub open spec fn given(stats: Option<&LayerCalib>) -> Option<LayerCalib> {
    match stats {
        Some(c) => Some(*c),
        None => None,
    }
}

/// What became of one layer.
#[derive(Clone, Debug)]
pub struct QuantReport {
    pub name: String,
    pub method: QuantMethod,
    pub bits: QBits,
    pub f32_bytes: usize,
    pub quant_bytes: usize,
    /// Largest difference of a weight.
    pub max_abs_err: u32,
    /// Root mean square error over root mean square weight.
    pub rel_err: u32,
    /// The scaling exponent that was used.
    pub alpha: Option<u32>,
}

/// Bytes before over bytes after; one where nothing is left.
pub open spec fn compression(before: int, after: int) -> Ratio {
    if after == 0 {
        Ratio { num: 1, den: 1 }
    } else {
        Ratio { num: before as u128, den: after as u128 }
    }
}

fn compression_ratio(before: usize, after: usize) -> (r: Ratio)
    ensures
        r == compression(before as int, after as int),
{
    if after == 0 {
        Ratio { num: 1, den: 1 }
    } else {
        Ratio { num: before as u128, den: after as u128 }
    }
}

impl QuantReport {
    /// Bytes before over bytes after.
    pub fn ratio(&self) -> (r: Ratio)
        ensures
            r == compression(self.f32_bytes as int, self.quant_bytes as int),
    {
        compression_ratio(self.f32_bytes, self.quant_bytes)
    }
}

/// The layer with the largest relative error among the first `n`: the last of equals, and an
/// error that is no number gives way to the next.
pub open spec fn worst_of(layers: Seq<QuantReport>, n: nat) -> int
    decreases n,
{
    if n <= 1 {
        0
    } else {
        let best = worst_of(layers, (n - 1) as nat);
        if awq::less(layers[n - 1].rel_err, layers[best].rel_err) {
            best
        } else {
            n - 1
        }
    }
}

/// The reports on a whole model.
#[derive(Clone, Debug)]
pub struct QuantSummary {
    pub method: QuantMethod,
    pub bits: QBits,
    pub f32_bytes: usize,
    pub quant_bytes: usize,
    pub layers: Vec<QuantReport>,
    /// Layers that were left as they are.
    pub skipped: usize,
}

impl QuantSummary {
    /// Bytes before over bytes after, of the whole model.
    pub fn ratio(&self) -> (r: Ratio)
        ensures
            r == compression(self.f32_bytes as int, self.quant_bytes as int),
    {
        compression_ratio(self.f32_bytes, self.quant_bytes)
    }

    /// The layer with the largest relative error.
    pub fn worst_layer(&self) -> (r: Option<&QuantReport>)
        ensures
            r is None <==> self.layers@.len() == 0,
            r matches Some(w) ==> *w == self.layers@[worst_of(self.layers@, self.layers@.len())],
    {
        let n: usize = self.layers.len();
        if n == 0 {
            return None;
        }
        let mut best: usize = 0;
        for i in 1..n
            invariant
                n == self.layers@.len(),
                best < n,
                best == worst_of(self.layers@, i as nat),
        {
            if !awq::is_less(self.layers[i].rel_err, self.layers[best].rel_err) {
                best = i;
            }
        }
        Some(&self.layers[best])
    }
}

/// No layer has a larger error than the worst one, where all errors are numbers.
pub proof fn worst_layer_is_worst(layers: Seq<QuantReport>, n: nat)
    requires
        0 < n <= layers.len(),
        forall|i: int| 0 <= i < n ==> !float_bits::nan((#[trigger] layers[i]).rel_err),
    ensures
        0 <= worst_of(layers, n) < n,
        forall|i: int|
            0 <= i < n ==> !awq::less(
                layers[worst_of(layers, n)].rel_err,
                (#[trigger] layers[i]).rel_err,
            ),
    decreases n,
{
    if n > 1 {
        worst_layer_is_worst(layers, (n - 1) as nat);
    }
}

/// What a checkpoint records about a quantised model.
#[derive(Clone, Copy, Debug, PartialEq, Eq, Structural)]
pub struct QuantMeta {
    pub bits: QBits,
    pub method: QuantMethod,
    pub orig_bytes: usize,
    pub quant_bytes: usize,
}

} // verus!
