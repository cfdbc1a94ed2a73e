use xwords::crossword::Crossword;
use xwords::crossword::Direction;
use xwords::parse::WordBoundary;
use xwords::parse::parse_word_boundaries;

#[test]
fn parse_word_boundaries_works() {
    let c = Crossword::square(String::from(
        "
abc
def
ghi
",
    ))
    .unwrap();
    let result = parse_word_boundaries(&c);

    assert_eq!(result.len(), 6);
    assert_eq!(
        result[0],
        WordBoundary {
            start_col: 0,
            start_row: 0,
            length: 3,
            direction: Direction::Across
        }
    );
    assert_eq!(
        result[1],
        WordBoundary {
            start_col: 0,
            start_row: 1,
            length: 3,
            direction: Direction::Across
        }
    );
    assert_eq!(
        result[2],
        WordBoundary {
            start_col: 0,
            start_row: 2,
            length: 3,
            direction: Direction::Across
        }
    );
    assert_eq!(
        result[3],
        WordBoundary {
            start_col: 0,
            start_row: 0,
            length: 3,
            direction: Direction::Down,
        }
    )
}

#[test]
fn parse_word_boundaries_big_grid() {
    let c = Crossword::square(String::from(
        "
    *    *     
    *    *     
         *     
   *   *   *   
**    *        
      *     ***
     *    *    
   *       *   
    *    *     
***     *      
        *    **
   *   *   *   
     *         
     *    *    
     *    *    
",
    ))
    .unwrap();

    let result = parse_word_boundaries(&c);

    assert_eq!(result.len(), 80);
    assert_eq!(
        result[0],
        WordBoundary {
            start_col: 0,
            start_row: 0,
            length: 4,
            direction: Direction::Across
        }
    );

    assert_eq!(
        result[1],
        WordBoundary {
            start_col: 5,
            start_row: 0,
            length: 4,
            direction: Direction::Across
        }
    );

    assert_eq!(
        result[41],
        WordBoundary {
            start_col: 0,
            start_row: 0,
            length: 4,
            direction: Direction::Down
        }
    );

    assert_eq!(
        result[79],
        WordBoundary {
            start_col: 14,
            start_row: 11,
            length: 4,
            direction: Direction::Down
        }
    );
}

#[test]
fn boundary_endpoints_touch_blocks() {
    let c = Crossword::square(String::from("AB*C D*EF")).unwrap();
    let result = parse_word_boundaries(&c);
    for b in &result {
        match b.direction {
            Direction::Across => {
                let row = b.start_row;
                if b.start_col > 0 {
                    assert_eq!(c.cell(row, b.start_col - 1), '*');
                }
                let end = b.start_col + b.length;
                if end < c.width() {
                    assert_eq!(c.cell(row, end), '*');
                }
                for k in 0..b.length {
                    assert_ne!(c.cell(row, b.start_col + k), '*');
                }
            }
            Direction::Down => {
                let col = b.start_col;
                if b.start_row > 0 {
                    assert_eq!(c.cell(b.start_row - 1, col), '*');
                }
                let end = b.start_row + b.length;
                if end < c.height() {
                    assert_eq!(c.cell(end, col), '*');
                }
                for k in 0..b.length {
                    assert_ne!(c.cell(b.start_row + k, col), '*');
                }
            }
        }
        assert!(b.length >= 2);
    }
}
