//! Unit tests for the traits in module "role".

use com_croftsoft_core::role::Filter;
use com_croftsoft_core::role::Server;

struct EvenOddFilter {
    even: bool,
    odd: bool,
}

impl Filter<&u8> for EvenOddFilter {
    fn is_filtrate(&self, item: &u8) -> bool {
        let is_even = item % 2 == 0;
        if is_even {
            self.even
        } else {
            self.odd
        }
    }
}

struct DoublingServer {}

impl Server<u8, u16> for DoublingServer {
    fn serve(&self, request: u8) -> u16 {
        (request as u16) * 2
    }
}

#[test]
fn test_filter() {
    let unfiltered: [u8; 5] = [1, 2, 3, 4, 5];
    let filter = EvenOddFilter {
        even: true,
        odd: false,
    };
    let filtered_sum = unfiltered.iter().fold(0, |sum, item| {
        sum
            + (if filter.is_filtrate(item) {
                *item
            } else {
                0
            })
    });
    assert_eq!(filtered_sum, 6);
}

#[test]
fn test_server() {
    let server = DoublingServer {};
    assert_eq!(server.serve(21), 42);
}
