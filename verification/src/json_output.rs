//! The events of the machine-readable build log, one object per line, and
//! the entries of the listings printed in that form.

use vstd::prelude::*;

verus! {

/// Status of a completed product in a build.
#[derive(Debug, Clone, Copy, PartialEq, Eq)]
pub enum ProductStatus {
    Success,
    Failed,
    Skipped,
    Restored,
}

/// A build event.
#[derive(Debug, Clone)]
pub enum BuildEvent {
    /// The build is starting, with this many products to process.
    BuildStart { total_products: usize },
    /// A product is about to be processed.
    ProductStart { product: String, processor: String },
    /// A product is done; the duration only where it was executed, the
    /// error only where it failed.
    ProductComplete {
        product: String,
        processor: String,
        status: ProductStatus,
        duration_ms: Option<u64>,
        error: Option<String>,
    },
    /// The build is done.
    BuildSummary {
        total: usize,
        success: usize,
        failed: usize,
        skipped: usize,
        restored: usize,
        duration_ms: u64,
        errors: Vec<String>,
    },
}

/// A processor's files, as listed.
#[derive(Debug, Clone)]
pub struct ProcessorFileEntry {
    pub processor: String,
    pub processor_type: String,
    pub inputs: Vec<String>,
    pub outputs: Vec<String>,
}

/// A processor, as listed.
#[derive(Debug, Clone)]
pub struct ProcessorListEntry {
    pub name: String,
    pub processor_type: String,
    pub enabled: bool,
    pub detected: bool,
    pub hidden: bool,
    pub batch: bool,
    pub description: String,
}

/// A tool and the processors that use it, as listed.
#[derive(Debug, Clone)]
pub struct ToolListEntry {
    pub tool: String,
    pub processors: Vec<String>,
}

/// The event that starts a build.
pub fn build_start_event(total_products: usize) -> (r: BuildEvent)
    ensures
        r == (BuildEvent::BuildStart { total_products }),
{
    BuildEvent::BuildStart { total_products }
}

/// The event that starts a product.
pub fn product_start_event(product: &str, processor: &str) -> (r: BuildEvent)
    ensures
        r matches BuildEvent::ProductStart { product: p, processor: q } && p@ == product@ && q@ == processor@,
{
    BuildEvent::ProductStart { product: String::from_str(product), processor: String::from_str(processor) }
}

/// The event that completes a product. A duration is given in whole
/// milliseconds, cut to 64 bits.
pub fn product_complete_event(
    product: &str,
    processor: &str,
    status: ProductStatus,
    duration_millis: Option<u128>,
    error: Option<&str>,
) -> (r: BuildEvent)
    ensures
        r matches BuildEvent::ProductComplete { product: p, processor: q, status: s, duration_ms: d, error: e }
            && p@ == product@ && q@ == processor@ && s == status
            && d == (match duration_millis {
                Some(ms) => Some(ms as u64),
                None => None,
            })
            && (match (e, error) {
                (Some(x), Some(y)) => x@ == y@,
                (None, None) => true,
                _ => false,
            }),
{
    let duration_ms: Option<u64> = match duration_millis {
        Some(ms) => Some(#[verifier::truncate] (ms as u64)),
        None => None,
    };
    let err: Option<String> = match error {
        Some(m) => Some(String::from_str(m)),
        None => None,
    };
    BuildEvent::ProductComplete {
        product: String::from_str(product),
        processor: String::from_str(processor),
        status,
        duration_ms,
        error: err,
    }
}

/// The event that ends a build. The duration is given in whole
/// milliseconds, cut to 64 bits.
pub fn build_summary_event(
    total: usize,
    success: usize,
    failed: usize,
    skipped: usize,
    restored: usize,
    duration_millis: u128,
    errors: &Vec<String>,
) -> (r: BuildEvent)
    ensures
        r matches BuildEvent::BuildSummary { total: t, success: s, failed: f, skipped: k, restored: x, duration_ms: d, errors: es }
            && t == total && s == success && f == failed && k == skipped && x == restored
            && d == duration_millis as u64 && es@.len() == errors@.len()
            && forall|i: int| 0 <= i < errors@.len() ==> #[trigger] es@[i]@ == errors@[i]@,
{
    let mut es: Vec<String> = Vec::new();
    let mut i: usize = 0;
    while i < errors.len()
        invariant
            0 <= i <= errors.len(),
            es@.len() == i,
            forall|j: int| 0 <= j < i ==> #[trigger] es@[j]@ == errors@[j]@,
        decreases errors.len() - i,
    {
        es.push(errors[i].clone());
        i = i + 1;
    }
    BuildEvent::BuildSummary {
        total,
        success,
        failed,
        skipped,
        restored,
        duration_ms: #[verifier::truncate] (duration_millis as u64),
        errors: es,
    }
}

} // verus!
