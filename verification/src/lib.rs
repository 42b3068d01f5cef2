//! Staff-line detection for rasterized sheet music.
//!
//! Given a grid of pixel intensities, the library classifies image rows as
//! "ink rows" (their mean intensity sits at or below one sample standard
//! deviation under the mean of all row means), groups consecutive ink rows
//! into line segments `(start_row, thickness)`, and tests whether five such
//! segments form a geometrically regular staff.
//!
//! All arithmetic is exact: because every row of a grid shares one width,
//! the threshold comparison can be carried out on integer row sums with the
//! common denominators cleared, so no rounding ever enters the verdict.

mod group;
mod profile;
mod staff;

pub use group::group_lines;
pub use group::lemma_all_false_no_runs;
pub use group::lemma_open_run_emitted;
pub use group::lemma_round_trip;
pub use group::lemma_run_end;
pub use group::lemma_run_extent;
pub use group::lemma_run_len_bounds;
pub use group::lemma_run_true;
pub use group::lemma_runs_cover;
pub use group::lemma_runs_elem;
pub use group::lemma_runs_sorted;
pub use group::lemma_runs_wf;
pub use group::mask_of;
pub use group::run_len;
pub use group::runs_from;
pub use group::seg_view;
pub use profile::detect_lines;
pub use profile::deviation;
pub use profile::is_dark;
pub use profile::row_sum;
pub use profile::row_sums;
pub use profile::sq_dev_total;
pub use profile::sum_row;
pub use profile::sums_int;
pub use profile::total;
pub use profile::PixelInspector;
pub use profile::MAX_ROWS;
pub use profile::MAX_WIDTH;
pub use staff::is_staff;
pub use staff::max_spacing;
pub use staff::max_thickness;
pub use staff::min_spacing;
pub use staff::min_thickness;
pub use staff::pair_spacing;
pub use staff::pair_thickness;
pub use staff::staff_spec;
