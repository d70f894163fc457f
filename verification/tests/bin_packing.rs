use online_placement::bin_packing::{PackError, Packer};

struct Unit {
    bins: usize,
}

impl Packer<u8> for Unit {
    fn pack(&mut self, item: u8) -> Result<(), PackError> {
        if item > 1 {
            return Err(PackError::InvalidSize);
        }
        self.bins += item as usize;
        Ok(())
    }

    fn no_bins(&self) -> usize {
        self.bins
    }
}

#[test]
fn packer_interface_reports_refusals_and_bins() {
    let mut p = Unit { bins: 0 };
    assert_eq!(p.pack(1), Ok(()));
    assert_eq!(p.pack(0), Ok(()));
    assert_eq!(p.pack(2), Err(PackError::InvalidSize));
    assert_eq!(p.pack(1), Ok(()));
    assert_eq!(p.no_bins(), 2);
}
