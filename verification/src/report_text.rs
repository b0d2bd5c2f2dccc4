//! Quantisation reports in words. Fractions come in already written out.

use crate::gptq::GptqOpts;
use crate::report;
use crate::report::{QuantReport, QuantSummary};
use crate::text;
use vstd::prelude::*;

verus! {

/// So many blanks.
pub open spec fn blanks(n: int) -> Seq<char> {
    Seq::new(
        (if n < 0 {
            0
        } else {
            n
        }) as nat,
        |i: int| ' ',
    )
}

/// A text with blanks behind it, up to a width.
pub open spec fn widened(s: Seq<char>, width: int) -> Seq<char> {
    s + blanks(width - s.len())
}

/// A text with blanks before it, up to a width.
pub open spec fn indented(s: Seq<char>, width: int) -> Seq<char> {
    blanks(width - s.len()) + s
}

fn blank_text(n: usize) -> (r: String)
    ensures
        r@ == blanks(n as int),
{
    proof {
        reveal_strlit(" ");
    }
    let mut s: String = String::new();
    assert(s@ =~= blanks(0));
    for i in 0..n
        invariant
            s@ == blanks(i as int),
            " "@.len() == 1,
            " "@[0] == ' ',
    {
        s.append(" ");
        assert(s@ =~= blanks(i + 1));
    }
    s
}

/// Pads a text on the right.
pub fn widen(s: &str, width: usize) -> (r: String)
    ensures
        r@ == widened(s@, width as int),
{
    let n: usize = s.unicode_len();
    let gap: String = blank_text(
        if n < width {
            width - n
        } else {
            0
        },
    );
    assert(gap@ =~= blanks(width - s@.len()));
    text::joined(s, gap.as_str())
}

/// Pads a text on the left.
pub fn indent(s: &str, width: usize) -> (r: String)
    ensures
        r@ == indented(s@, width as int),
{
    let n: usize = s.unicode_len();
    let gap: String = blank_text(
        if n < width {
            width - n
        } else {
            0
        },
    );
    assert(gap@ =~= blanks(width - s@.len()));
    text::joined(gap.as_str(), s)
}

/// A padded text fills its width, and the text is still in it.
pub proof fn padding_fills_the_width(s: Seq<char>, width: int)
    ensures
        s.len() <= width ==> widened(s, width).len() == width && indented(s, width).len() == width,
        s.len() > width ==> widened(s, width) == s && indented(s, width) == s,
        s.is_prefix_of(widened(s, width)),
        s.is_suffix_of(indented(s, width)),
{
    assert(widened(s, width).subrange(0, s.len() as int) =~= s);
    let t = indented(s, width);
    assert(t.subrange(t.len() - s.len(), t.len() as int) =~= s);
    if s.len() > width {
        assert(widened(s, width) =~= s);
        assert(indented(s, width) =~= s);
    }
}

impl GptqOpts {
    /// The options in words; `damp` is the damping written out.
    pub open spec fn words(self, damp: Seq<char>) -> Seq<char> {
        "act-order="@ + (if self.act_order {
            "开"@
        } else {
            "关"@
        }) + "，damp="@ + damp + "，block="@ + (if self.block == 0 {
            "不分块"@
        } else {
            text::digits(self.block as nat)
        })
    }

    /// Describes the options.
    pub fn describe(&self, damp: &str) -> (r: String)
        ensures
            r@ == self.words(damp@),
    {
        let mut s: String = text::joined(
            "act-order=",
            if self.act_order {
                "开"
            } else {
                "关"
            },
        );
        s.append("，damp=");
        s.append(damp);
        s.append("，block=");
        if self.block == 0 {
            s.append("不分块");
        } else {
            s.append(text::decimal(self.block).as_str());
        }
        s
    }
}

/// The fractions of a layer's report, written out.
#[derive(Clone, Debug)]
pub struct LayerNumbers {
    /// The compression, two places.
    pub ratio: String,
    /// The largest error, in scientific form.
    pub max_abs: String,
    /// The relative error in percent, two places.
    pub rel: String,
    /// The exponent, two places; it is only read where the report has one.
    pub alpha: String,
}

/// What a report says about the exponent: nothing where none was used.
pub open spec fn alpha_words(alpha: Option<u32>, written: Seq<char>) -> Seq<char> {
    match alpha {
        Some(_) => "，α="@ + written,
        None => Seq::empty(),
    }
}

impl QuantReport {
    /// The report in words.
    pub open spec fn words(self, n: LayerNumbers) -> Seq<char> {
        widened(self.name@, 28) + " "@ + self.bits.title() + " "@ + widened(
            self.method.title(),
            4,
        ) + " "@ + indented(text::digits(self.f32_bytes as nat), 9) + " → "@ + indented(
            text::digits(self.quant_bytes as nat),
            9,
        ) + " B（"@ + indented(n.ratio@, 5) + "×）max-abs "@ + n.max_abs@ + " rel "@ + n.rel@ + "%"@
            + alpha_words(self.alpha, n.alpha@)
    }

    /// Describes one layer.
    pub fn describe(&self, n: &LayerNumbers) -> (r: String)
        ensures
            r@ == self.words(*n),
    {
        let mut s: String = widen(self.name.as_str(), 28);
        s.append(" ");
        s.append(self.bits.name());
        s.append(" ");
        s.append(widen(self.method.name(), 4).as_str());
        s.append(" ");
        s.append(indent(text::decimal(self.f32_bytes).as_str(), 9).as_str());
        s.append(" → ");
        s.append(indent(text::decimal(self.quant_bytes).as_str(), 9).as_str());
        s.append(" B（");
        s.append(indent(n.ratio.as_str(), 5).as_str());
        s.append("×）max-abs ");
        s.append(n.max_abs.as_str());
        s.append(" rel ");
        s.append(n.rel.as_str());
        s.append("%");
        match self.alpha {
            Some(_) => {
                let words: String = text::joined("，α=", n.alpha.as_str());
                s.append(words.as_str());
            },
            None => {
                assert(s@ + Seq::<char>::empty() =~= s@);
            },
        }
        s
    }
}

/// The fractions of a model's report, written out.
#[derive(Clone, Debug)]
pub struct ModelNumbers {
    /// Megabytes before, two places.
    pub f32_mb: String,
    /// Megabytes after, two places.
    pub quant_mb: String,
    /// The compression, two places.
    pub ratio: String,
    /// The relative error of the worst layer in percent, two places.
    pub worst_rel: String,
}

impl QuantSummary {
    /// What the report says about the worst layer.
    pub open spec fn worst_words(self, n: ModelNumbers) -> Seq<char> {
        if self.layers@.len() == 0 {
            Seq::empty()
        } else {
            "，最差层 "@ + self.layers@[report::worst_of(self.layers@, self.layers@.len())].name@
                + " rel "@ + n.worst_rel@ + "%"@
        }
    }

    /// What the report says about skipped layers.
    pub open spec fn skipped_words(self) -> Seq<char> {
        if self.skipped > 0 {
            "，跳过 "@ + text::digits(self.skipped as nat) + " 层"@
        } else {
            Seq::empty()
        }
    }

    /// The report in words.
    pub open spec fn words(self, n: ModelNumbers) -> Seq<char> {
        self.bits.title() + " "@ + self.method.title() + " 量化（"@
            + self.method.summary() + "）：权重 "@ + text::digits(self.f32_bytes as nat) + " → "@
            + text::digits(self.quant_bytes as nat) + "（"@ + n.f32_mb@ + " MB → "@ + n.quant_mb@
            + " MB，压缩 "@ + n.ratio@ + "×，命中 "@ + text::digits(self.layers@.len()) + " 层"@
            + self.worst_words(n) + self.skipped_words() + "）"@
    }

    /// Describes the whole run.
    pub fn describe(&self, n: &ModelNumbers) -> (r: String)
        ensures
            r@ == self.words(*n),
    {
        let mut s: String = text::joined(self.bits.name(), " ");
        s.append(self.method.name());
        s.append(" 量化（");
        s.append(self.method.describe());
        s.append("）：权重 ");
        s.append(text::decimal(self.f32_bytes).as_str());
        s.append(" → ");
        s.append(text::decimal(self.quant_bytes).as_str());
        s.append("（");
        s.append(n.f32_mb.as_str());
        s.append(" MB → ");
        s.append(n.quant_mb.as_str());
        s.append(" MB，压缩 ");
        s.append(n.ratio.as_str());
        s.append("×，命中 ");
        s.append(text::decimal(self.layers.len()).as_str());
        s.append(" 层");
        let ghost head = s@;
        match self.worst_layer() {
            Some(w) => {
                let mut more: String = text::joined("，最差层 ", w.name.as_str());
                more.append(" rel ");
                more.append(n.worst_rel.as_str());
                more.append("%");
                s.append(more.as_str());
            },
            None => {},
        }
        assert(s@ =~= head + self.worst_words(*n));
        if self.skipped > 0 {
            let mut more: String = text::joined("，跳过 ", text::decimal(self.skipped).as_str());
            more.append(" 层");
            s.append(more.as_str());
        }
        assert(s@ =~= head + self.worst_words(*n) + self.skipped_words());
        s.append("）");
        s
    }
}

} // verus!
